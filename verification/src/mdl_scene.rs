//! From parsed MDL data to a mesh: the first frame's vertices, split where a
//! vertex on the skin seam is used by back-facing and front-facing
//! triangles, and the first skin as an RGBA image.
//!
//! Positions, normals and texture coordinates are computed from the
//! returned corners by the caller, in floating point.

use vstd::prelude::*;
use std::collections::HashMap;
use crate::png::{deflate_fast, encode_rgba_to_png, png_file, png_rows_spec};
use crate::mdl::{FrameView, MdlData, MdlFrame, MdlSkin, MdlTexCoord, MdlTriangle, MdlVertex, MdlView, SkinView, nonneg};

verus! {

/// Why MDL data cannot be turned into a mesh.
#[derive(Debug, Clone, Copy, PartialEq, Eq, Structural)]
pub enum MdlSceneError {
    /// The model has no frames.
    NoFrames,
    /// The first frame is a group with no frames in it.
    EmptyFrameGroup,
    /// The first frame's vertex count differs from the header's.
    VertexCountMismatch { header: usize, frame: usize },
    /// A triangle names a vertex past the header's count.
    VertexIndexOutOfRange { index: usize, num_verts: usize },
}

/// The vertices of the first frame (the first frame of a group).
pub open spec fn first_frame_verts(frames: Seq<FrameView>) -> Result<Seq<MdlVertex>, MdlSceneError> {
    if frames.len() == 0 {
        Err(MdlSceneError::NoFrames)
    } else {
        match frames[0] {
            FrameView::Simple(sf) => Ok(sf.verts),
            FrameView::Group { frames: fs, .. } => if fs.len() == 0 {
                Err(MdlSceneError::EmptyFrameGroup)
            } else {
                Ok(fs[0].verts)
            },
        }
    }
}

/// The vertices of the model's first frame.
pub fn first_frame_vertices(data: &MdlData) -> (r: Result<&Vec<MdlVertex>, MdlSceneError>)
    ensures
        match (r, first_frame_verts(data@.frames)) {
            (Ok(v), Ok(sv)) => v@ == sv,
            (Err(e), Err(se)) => e == se,
            _ => false,
        },
{
    if data.frames.len() == 0 {
        return Err(MdlSceneError::NoFrames);
    }
    match &data.frames[0] {
        MdlFrame::Simple(sf) => Ok(&sf.verts),
        MdlFrame::Group { frames, .. } => {
            if frames.len() == 0 {
                Err(MdlSceneError::EmptyFrameGroup)
            } else {
                Ok(&frames[0].verts)
            }
        },
    }
}

/// Half the skin width, rounded toward zero.
pub open spec fn half_width(w: i32) -> int {
    if w >= 0 {
        w / 2
    } else {
        -((-w) / 2)
    }
}

/// Whether a corner of triangle `tri` at texture coordinate `tc` lies on the
/// seam of a back-facing triangle, where the skin's back half is used.
pub open spec fn on_back_seam(tri: MdlTriangle, tc: MdlTexCoord) -> bool {
    tri.facesfront == 0 && tc.onseam != 0
}

/// A vertex of the split mesh: the model vertex and its skin coordinates.
#[derive(Debug, Clone, Copy, PartialEq, Eq, Structural)]
pub struct MdlCorner {
    pub vertex: usize,
    pub s: i32,
    pub t: i32,
}

/// The corner that corner `c` of triangle `tri` stands for; seam corners of
/// back-facing triangles move half a skin width to the right.
pub open spec fn corner_of(tri: MdlTriangle, tcs: Seq<MdlTexCoord>, c: int, w: i32) -> MdlCorner {
    let idx = tri.vertex[c] as usize;
    let tc = tcs[idx as int];
    MdlCorner {
        vertex: idx,
        s: if on_back_seam(tri, tc) { (tc.s + half_width(w)) as i32 } else { tc.s },
        t: tc.t,
    }
}

/// Whether the seam shift stays within `i32` for every in-range corner.
pub open spec fn seam_fits(tris: Seq<MdlTriangle>, tcs: Seq<MdlTexCoord>, nv: nat, w: i32) -> bool {
    forall|k: int, c: int|
        0 <= k < tris.len() && 0 <= c < 3 && (tris[k].vertex[c] as usize) < nv && on_back_seam(
            #[trigger] tris[k],
            tcs[tris[k].vertex[c] as usize as int],
        ) ==> i32::MIN <= #[trigger] tcs[tris[k].vertex[c] as usize as int].s + half_width(w) <= i32::MAX
}

/// One number per corner, equal exactly when the corners are equal.
pub open spec fn corner_key(c: MdlCorner) -> u128 {
    (c.vertex * 0x1_0000_0000_0000_0000int + (c.s as u32) * 0x1_0000_0000int + (c.t as u32)) as u128
}

pub struct MdlWeld {
    pub corners: Seq<MdlCorner>,
    pub indices: Seq<u32>,
    pub seen: Map<u128, u32>,
}

/// The split mesh after the first `n` triangle corners, or the error of the
/// first corner that names no vertex.
pub open spec fn mdl_weld(tris: Seq<MdlTriangle>, tcs: Seq<MdlTexCoord>, nv: nat, w: i32, n: nat) -> Result<MdlWeld, MdlSceneError>
    decreases n,
{
    if n == 0 {
        Ok(MdlWeld { corners: seq![], indices: seq![], seen: Map::empty() })
    } else {
        match mdl_weld(tris, tcs, nv, w, (n - 1) as nat) {
            Err(e) => Err(e),
            Ok(st) => {
                let k = n - 1;
                let tri = tris[k / 3];
                let idx = tri.vertex[k % 3] as usize;
                if idx >= nv {
                    Err(MdlSceneError::VertexIndexOutOfRange { index: idx, num_verts: nv as usize })
                } else {
                    let c = corner_of(tri, tcs, k % 3, w);
                    let key = corner_key(c);
                    if st.seen.contains_key(key) {
                        Ok(MdlWeld { indices: st.indices.push(st.seen[key]), ..st })
                    } else {
                        let ni = (st.corners.len() % 0x1_0000_0000) as u32;
                        Ok(MdlWeld { corners: st.corners.push(c), indices: st.indices.push(ni), seen: st.seen.insert(key, ni) })
                    }
                }
            },
        }
    }
}

/// The mesh plan of a model: `None` when the header declares no vertices or
/// no triangles; else the split corners and three indices per triangle.
pub open spec fn mesh_plan_spec(m: MdlView) -> Result<Option<(Seq<MdlCorner>, Seq<u32>)>, MdlSceneError> {
    let nv = nonneg(m.header.num_verts);
    let nt = nonneg(m.header.num_tris);
    if nv == 0 || nt == 0 {
        Ok(None)
    } else {
        match first_frame_verts(m.frames) {
            Err(e) => Err(e),
            Ok(fv) => if fv.len() != nv {
                Err(MdlSceneError::VertexCountMismatch { header: nv as usize, frame: fv.len() as usize })
            } else {
                match mdl_weld(m.triangles, m.texcoords, nv, m.header.skinwidth, 3 * m.triangles.len()) {
                    Err(e) => Err(e),
                    Ok(st) => Ok(Some((st.corners, st.indices))),
                }
            },
        }
    }
}

proof fn lemma_weld_err_sticks(tris: Seq<MdlTriangle>, tcs: Seq<MdlTexCoord>, nv: nat, w: i32, n: nat, m: nat)
    requires
        n <= m,
        mdl_weld(tris, tcs, nv, w, n) is Err,
    ensures
        mdl_weld(tris, tcs, nv, w, m) == mdl_weld(tris, tcs, nv, w, n),
    decreases m,
{
    if m > n {
        lemma_weld_err_sticks(tris, tcs, nv, w, n, (m - 1) as nat);
    }
}

fn half_width_exec(w: i32) -> (r: i32)
    ensures
        r == half_width(w),
{
    if w >= 0 {
        w / 2
    } else {
        let p: i64 = 0 - (w as i64);
        (0 - p / 2) as i32
    }
}

fn corner_key_exec(c: MdlCorner) -> (r: u128)
    requires
        c.vertex < 0x1_0000_0000,
    ensures
        r == corner_key(c),
{
    (c.vertex as u128) * 0x1_0000_0000_0000_0000 + ((c.s as u32) as u128) * 0x1_0000_0000 + ((c.t as u32) as u128)
}

/// Whether there is a texture coordinate for every vertex and every seam
/// shift of the model stays within `i32` (the plan's precondition; parsed
/// data always has the coordinates).
pub fn seam_shifts_fit(data: &MdlData) -> (r: bool)
    ensures
        r == (data@.texcoords.len() >= nonneg(data.header.num_verts) && seam_fits(
            data@.triangles,
            data@.texcoords,
            nonneg(data.header.num_verts),
            data.header.skinwidth,
        )),
{
    let nv: usize = if data.header.num_verts < 0 { 0 } else { data.header.num_verts as usize };
    if data.texcoords.len() < nv {
        return false;
    }
    let half = half_width_exec(data.header.skinwidth) as i64;
    let mut k: usize = 0;
    while k < data.triangles.len()
        invariant
            k <= data@.triangles.len(),
            nv == nonneg(data.header.num_verts),
            data@.texcoords.len() >= nv,
            half == half_width(data.header.skinwidth),
            forall|kk: int, c: int|
                0 <= kk < k && 0 <= c < 3 && (data@.triangles[kk].vertex[c] as usize) < nv && on_back_seam(
                    #[trigger] data@.triangles[kk],
                    data@.texcoords[data@.triangles[kk].vertex[c] as usize as int],
                ) ==> i32::MIN <= #[trigger] data@.texcoords[data@.triangles[kk].vertex[c] as usize as int].s + half_width(data.header.skinwidth) <= i32::MAX,
        decreases data@.triangles.len() - k,
    {
        let tri = data.triangles[k];
        let mut c: usize = 0;
        while c < 3
            invariant
                k < data@.triangles.len(),
                tri == data@.triangles[k as int],
                c <= 3,
                nv == nonneg(data.header.num_verts),
                data@.texcoords.len() >= nv,
                half == half_width(data.header.skinwidth),
                forall|kk: int, cc: int|
                    0 <= kk < k && 0 <= cc < 3 && (data@.triangles[kk].vertex[cc] as usize) < nv && on_back_seam(
                        #[trigger] data@.triangles[kk],
                        data@.texcoords[data@.triangles[kk].vertex[cc] as usize as int],
                    ) ==> i32::MIN <= #[trigger] data@.texcoords[data@.triangles[kk].vertex[cc] as usize as int].s + half_width(data.header.skinwidth) <= i32::MAX,
                forall|cc: int|
                    0 <= cc < c && (tri.vertex[cc] as usize) < nv && on_back_seam(tri, data@.texcoords[tri.vertex[cc] as usize as int])
                        ==> i32::MIN <= data@.texcoords[tri.vertex[cc] as usize as int].s + half_width(data.header.skinwidth) <= i32::MAX,
            decreases 3 - c,
        {
            let idx = tri.vertex[c] as usize;
            if idx < nv {
                let tc = data.texcoords[idx];
                if tri.facesfront == 0 && tc.onseam != 0 {
                    let sum: i64 = tc.s as i64 + half;
                    if sum < -2147483648 || sum > 2147483647 {
                        return false;
                    }
                }
            }
            c = c + 1;
        }
        k = k + 1;
    }
    true
}

/// Splits the model's vertices by their effective skin coordinates and lists
/// three indices per triangle; `None` for a model without vertices or
/// triangles.
pub fn mesh_plan(data: &MdlData) -> (r: Result<Option<(Vec<MdlCorner>, Vec<u32>)>, MdlSceneError>)
    requires
        data@.texcoords.len() >= nonneg(data.header.num_verts),
        seam_fits(data@.triangles, data@.texcoords, nonneg(data.header.num_verts), data.header.skinwidth),
    ensures
        match (r, mesh_plan_spec(data@)) {
            (Ok(None), Ok(None)) => true,
            (Ok(Some((cs, ix))), Ok(Some((scs, six)))) => cs@ == scs && ix@ == six,
            (Err(e), Err(se)) => e == se,
            _ => false,
        },
{
    broadcast use vstd::std_specs::hash::group_hash_axioms;
    let nv: usize = if data.header.num_verts < 0 { 0 } else { data.header.num_verts as usize };
    let nt: usize = if data.header.num_tris < 0 { 0 } else { data.header.num_tris as usize };
    if nv == 0 || nt == 0 {
        return Ok(None);
    }
    let fv = match first_frame_vertices(data) {
        Ok(v) => v,
        Err(e) => {
            return Err(e);
        },
    };
    if fv.len() != nv {
        return Err(MdlSceneError::VertexCountMismatch { header: nv, frame: fv.len() });
    }
    let w = data.header.skinwidth;
    let half = half_width_exec(w);
    let ghost tris = data@.triangles;
    let ghost tcs = data@.texcoords;
    let mut corners: Vec<MdlCorner> = Vec::new();
    let mut indices: Vec<u32> = Vec::new();
    let mut map: HashMap<u128, u32> = HashMap::new();
    let mut t: usize = 0;
    while t < data.triangles.len()
        invariant
            mesh_plan_spec(data@) == match mdl_weld(tris, tcs, nv as nat, w, 3 * tris.len()) {
                Err(e) => Err(e),
                Ok(st) => Ok(Some((st.corners, st.indices))),
            },
            t <= tris.len(),
            tris == data@.triangles,
            tcs == data@.texcoords,
            nv == nonneg(data.header.num_verts),
            nv < 0x8000_0000,
            tcs.len() >= nv,
            w == data.header.skinwidth,
            half == half_width(w),
            seam_fits(tris, tcs, nv as nat, w),
            mdl_weld(tris, tcs, nv as nat, w, 3 * t as nat) matches Ok(st) && corners@ == st.corners
                && indices@ == st.indices && map@ == st.seen,
        decreases tris.len() - t,
    {
        let tri = data.triangles[t];
        let mut c: usize = 0;
        while c < 3
            invariant
                mesh_plan_spec(data@) == match mdl_weld(tris, tcs, nv as nat, w, 3 * tris.len()) {
                    Err(e) => Err(e),
                    Ok(st) => Ok(Some((st.corners, st.indices))),
                },
                t < tris.len(),
                tri == tris[t as int],
                tris == data@.triangles,
                tcs == data@.texcoords,
                c <= 3,
                nv == nonneg(data.header.num_verts),
                nv < 0x8000_0000,
                tcs.len() >= nv,
                w == data.header.skinwidth,
                half == half_width(w),
                seam_fits(tris, tcs, nv as nat, w),
                mdl_weld(tris, tcs, nv as nat, w, (3 * t + c) as nat) matches Ok(st) && corners@ == st.corners
                    && indices@ == st.indices && map@ == st.seen,
            decreases 3 - c,
        {
            let ghost k: int = 3 * t + c;
            proof {
                vstd::arithmetic::div_mod::lemma_fundamental_div_mod_converse(k, 3, t as int, c as int);
            }
            let idx = tri.vertex[c] as usize;
            if idx >= nv {
                proof {
                    lemma_weld_err_sticks(tris, tcs, nv as nat, w, (k + 1) as nat, 3 * tris.len());
                }
                return Err(MdlSceneError::VertexIndexOutOfRange { index: idx, num_verts: nv });
            }
            let tc = data.texcoords[idx];
            let s = if tri.facesfront == 0 && tc.onseam != 0 {
                proof {
                    assert(i32::MIN <= tcs[tri.vertex[c as int] as usize as int].s + half_width(w) <= i32::MAX);
                }
                tc.s + half
            } else {
                tc.s
            };
            let corner = MdlCorner { vertex: idx, s, t: tc.t };
            assert(corner == corner_of(tri, tcs, c as int, w));
            let key = corner_key_exec(corner);
            match map.get(&key) {
                Some(existing) => {
                    indices.push(*existing);
                },
                None => {
                    let new_idx = ((corners.len() as u64) % 0x1_0000_0000) as u32;
                    corners.push(corner);
                    map.insert(key, new_idx);
                    indices.push(new_idx);
                },
            }
            c = c + 1;
        }
        t = t + 1;
    }
    Ok(Some((corners, indices)))
}

/// The pixels of the first skin (the first image of a skin group).
pub open spec fn first_skin_pixels(skins: Seq<SkinView>) -> Seq<u8> {
    if skins.len() == 0 {
        seq![]
    } else {
        match skins[0] {
            SkinView::Single { data } => data,
            SkinView::Group { data, .. } => if data.len() > 0 {
                data[0]
            } else {
                seq![]
            },
        }
    }
}

/// RGBA of the first `count` palette-indexed pixels: the palette's color,
/// opaque except for index 255, which is transparent.
pub open spec fn palette_rgba(pixels: Seq<u8>, count: nat, palette: Seq<u8>) -> Seq<u8> {
    Seq::new(4 * count, |j: int| {
        let p = pixels[j / 4];
        let c = j % 4;
        if c < 3 {
            palette[3 * p + c]
        } else if p == 255 {
            0u8
        } else {
            255u8
        }
    })
}

/// The skin image, when the first skin has pixels and the skin size is
/// positive: RGBA of as many pixels as both the data and the size allow,
/// with width and height.
pub open spec fn skin_rgba_spec(m: MdlView, palette: Seq<u8>) -> Option<(Seq<u8>, usize, usize)> {
    let px = first_skin_pixels(m.skins);
    if px.len() > 0 && m.header.skinwidth > 0 && m.header.skinheight > 0 {
        let w = m.header.skinwidth as usize;
        let h = m.header.skinheight as usize;
        let count = if px.len() < w * h { px.len() } else { (w * h) as nat };
        Some((palette_rgba(px, count, palette), w, h))
    } else {
        None
    }
}

fn first_skin(data: &MdlData) -> (r: &[u8])
    ensures
        r@ == first_skin_pixels(data@.skins),
{
    if data.skins.len() == 0 {
        return &[];
    }
    match &data.skins[0] {
        MdlSkin::Single { data } => data.as_slice(),
        MdlSkin::Group { data, .. } => {
            if data.len() > 0 {
                data[0].as_slice()
            } else {
                &[]
            }
        },
    }
}

/// Converts the first skin to RGBA through the 256-color `palette` (768
/// bytes, red, green, blue per entry).
pub fn skin_rgba(data: &MdlData, palette: &[u8]) -> (r: Option<(Vec<u8>, usize, usize)>)
    requires
        palette@.len() == 768,
    ensures
        match (r, skin_rgba_spec(data@, palette@)) {
            (Some((px, w, h)), Some((spx, sw, sh))) => px@ == spx && w == sw && h == sh,
            (None, None) => true,
            _ => false,
        },
{
    let px = first_skin(data);
    if !(px.len() > 0 && data.header.skinwidth > 0 && data.header.skinheight > 0) {
        return None;
    }
    let w = data.header.skinwidth as usize;
    let h = data.header.skinheight as usize;
    assert((w as u64) * (h as u64) < 0x4000_0000_0000_0000u64) by (nonlinear_arith)
        requires w < 0x8000_0000usize, h < 0x8000_0000usize;
    let wh: u64 = (w as u64) * (h as u64);
    let count: usize = if (px.len() as u64) < wh { px.len() } else { wh as usize };
    let mut rgba: Vec<u8> = Vec::new();
    let mut i: usize = 0;
    while i < count
        invariant
            i <= count,
            count <= px@.len(),
            palette@.len() == 768,
            rgba@ == palette_rgba(px@, i as nat, palette@),
        decreases count - i,
    {
        let p = px[i] as usize;
        rgba.push(palette[3 * p]);
        rgba.push(palette[3 * p + 1]);
        rgba.push(palette[3 * p + 2]);
        if p == 255 {
            rgba.push(0);
        } else {
            rgba.push(255);
        }
        proof {
            let next = palette_rgba(px@, (i + 1) as nat, palette@);
            assert forall|j: int| 0 <= j < next.len() implies #[trigger] next[j] == rgba@[j] by {
                let q = j / 4;
                let c = j % 4;
                vstd::arithmetic::div_mod::lemma_fundamental_div_mod(j, 4);
                if j < 4 * i {
                    assert(rgba@[j] == palette_rgba(px@, i as nat, palette@)[j]);
                } else {
                    vstd::arithmetic::div_mod::lemma_fundamental_div_mod_converse(j, 4, i as int, j - 4 * i);
                }
            }
            assert(rgba@ =~= next);
        }
        i = i + 1;
    }
    Some((rgba, w, h))
}

/// The skin as a PNG file.
pub open spec fn skin_png_spec(m: MdlView, palette: Seq<u8>) -> Option<Seq<u8>> {
    match skin_rgba_spec(m, palette) {
        None => None,
        Some((rgba, w, h)) => Some(png_file(w as nat, h as nat, deflate_fast(png_rows_spec(rgba, w as nat, h as nat)))),
    }
}

/// Whether the first skin, when there is an image, has a pixel for every
/// position of the skin size and the size fits in memory arithmetic (what
/// the PNG encoder needs).
pub open spec fn skin_fills_image(m: MdlView) -> bool {
    let px = first_skin_pixels(m.skins);
    px.len() > 0 && m.header.skinwidth > 0 && m.header.skinheight > 0 ==> (
        px.len() >= m.header.skinwidth * m.header.skinheight
        && 4 * m.header.skinwidth * m.header.skinheight <= usize::MAX)
}

pub fn skin_fills(data: &MdlData) -> (r: bool)
    ensures
        r == skin_fills_image(data@),
{
    let px = first_skin(data);
    if px.len() > 0 && data.header.skinwidth > 0 && data.header.skinheight > 0 {
        let w = data.header.skinwidth as u64;
        let h = data.header.skinheight as u64;
        assert(w * h < 0x4000_0000_0000_0000u64) by (nonlinear_arith)
            requires w < 0x8000_0000u64, h < 0x8000_0000u64;
        let wh: u64 = w * h;
        assert(4 * data.header.skinwidth * data.header.skinheight == (wh as int) * 4) by (nonlinear_arith)
            requires w == data.header.skinwidth, h == data.header.skinheight, wh == w * h;
        (px.len() as u64) >= wh && (wh as u128) * 4 <= usize::MAX as u128
    } else {
        true
    }
}

proof fn lemma_skin_fits(m: MdlView, palette: Seq<u8>)
    requires
        skin_fills_image(m),
    ensures
        skin_rgba_spec(m, palette) matches Some((rgba, w, h)) ==> 4 * w <= usize::MAX && 4 * w * h <= rgba.len(),
{
    if let Some((rgba, w, h)) = skin_rgba_spec(m, palette) {
        let px = first_skin_pixels(m.skins);
        assert(w * h == m.header.skinwidth * m.header.skinheight);
        assert(4 * w * h == 4 * (w * h)) by (nonlinear_arith);
        assert(4 * w <= 4 * w * h) by (nonlinear_arith) requires h >= 1, w >= 0;
    }
}

/// The first skin as an embedded PNG image.
pub fn skin_png(data: &MdlData, palette: &[u8]) -> (r: Option<Vec<u8>>)
    requires
        palette@.len() == 768,
        skin_fills_image(data@),
    ensures
        match (r, skin_png_spec(data@, palette@)) {
            (Some(p), Some(sp)) => p@ == sp,
            (None, None) => true,
            _ => false,
        },
{
    match skin_rgba(data, palette) {
        None => None,
        Some((rgba, w, h)) => {
            proof {
                lemma_skin_fits(data@, palette@);
            }
            Some(encode_rgba_to_png(rgba.as_slice(), w, h))
        },
    }
}

} // verus!
