//! Wavefront OBJ and MTL: statements, faces, materials, and the mesh plan.
//!
//! Coordinates and material numbers are kept as the text of their tokens
//! (each one a literal that `str::parse::<f32>` accepts); converting them
//! to numbers is left to the caller.

use vstd::prelude::*;
use vstd::string::StringSliceAdditionalSpecFns;
use crate::stl::{TextVec3, TextVec3View, clone_text3, literal, text3, text3_exec};
use crate::text::{
    begins_with, copy_range, eq_bytes, eq_bytes_ignore_case, eq_ignore_case, is_float_literal, is_float_literal_exec,
    find_byte, index_of, lines, parse_i64, parse_i64_spec, parse_u32, parse_u32_spec, split_lines, split_words, token_len, trim, trim_bytes, vv, words,
};

verus! {

/// Errors of the OBJ reader.
#[derive(Debug, Clone, Copy, PartialEq, Eq, Structural)]
pub enum ObjError {
    /// A face names a position that does not exist.
    VertexIndexOutOfRange { raw: i64 },
    /// A face names a texture coordinate that does not exist.
    UvIndexOutOfRange { raw: i64 },
    /// A face names a normal that does not exist.
    NormalIndexOutOfRange { raw: i64 },
    /// A face with fewer than three corners.
    TooFewCorners { count: usize },
}

/// A 1-based OBJ index (negative: counted from the end) as a 0-based index
/// into `len` elements; `None` for 0 or an index past either end.
pub open spec fn resolve_idx_spec(raw: i64, len: usize) -> Option<usize> {
    if raw == 0 {
        None
    } else {
        let v: int = if raw < 0 { len + raw } else { raw - 1 };
        if 0 <= v < len {
            Some(v as usize)
        } else {
            None
        }
    }
}

/// Resolves a 1-based (or, when negative, end-relative) OBJ index.
pub fn resolve_idx(raw: i64, len: usize) -> (r: Option<usize>)
    requires
        len <= i64::MAX,
    ensures
        r == resolve_idx_spec(raw, len),
{
    if raw == 0 {
        return None;
    }
    let v: i64 = if raw < 0 { len as i64 + raw } else { raw - 1 };
    if v >= 0 && (v as u64) < (len as u64) {
        Some(v as usize)
    } else {
        None
    }
}

/// The last word of `s` not starting with `-`, or all of `s` when there is
/// none: the path of a texture statement after its options.
pub open spec fn tex_path_spec(s: Seq<u8>) -> Seq<u8> {
    let ws = words(s);
    let keep = ws.filter(|w: Seq<u8>| !(w.len() > 0 && w[0] == 45));
    if keep.len() > 0 {
        keep.last()
    } else {
        s
    }
}

/// The last word of `s` that neither starts with `-` nor reads as a number,
/// or all of `s` when there is none: the path of a bump-map statement.
pub open spec fn strip_options_spec(s: Seq<u8>) -> Seq<u8> {
    let ws = words(s);
    let keep = ws.filter(|w: Seq<u8>| !(w.len() > 0 && w[0] == 45) && !is_float_literal(w));
    if keep.len() > 0 {
        keep.last()
    } else {
        s
    }
}

/// The path of a texture statement: its last word that is not an option.
pub fn tex_path(s: &[u8]) -> (r: Vec<u8>)
    ensures
        r@ == tex_path_spec(s@),
{
    let ws = split_words(s);
    let mut k = ws.len();
    while k > 0
        invariant
            k <= ws@.len(),
            vv(ws) == words(s@),
            forall|j: int| k <= j < ws@.len() ==> ws@[j]@.len() > 0 && ws@[j]@[0] == 45,
        decreases k,
    {
        let w = &ws[k - 1];
        if !(w.len() > 0 && w[0] == 45) {
            proof {
                lemma_filter_last(vv(ws), |w: Seq<u8>| !(w.len() > 0 && w[0] == 45), (k - 1) as int);
            }
            return w.clone();
        }
        k = k - 1;
    }
    proof {
        lemma_filter_none(vv(ws), |w: Seq<u8>| !(w.len() > 0 && w[0] == 45));
    }
    vstd::slice::slice_to_vec(s)
}

/// The path of a bump-map statement: its last word that is neither an
/// option nor a number.
pub fn strip_options(s: &[u8]) -> (r: Vec<u8>)
    ensures
        r@ == strip_options_spec(s@),
{
    let ws = split_words(s);
    let mut k = ws.len();
    while k > 0
        invariant
            k <= ws@.len(),
            vv(ws) == words(s@),
            forall|j: int| k <= j < ws@.len() ==> (ws@[j]@.len() > 0 && ws@[j]@[0] == 45) || is_float_literal(ws@[j]@),
        decreases k,
    {
        let w = &ws[k - 1];
        if !(w.len() > 0 && w[0] == 45) && !is_float_literal_exec(w.as_slice()) {
            proof {
                lemma_filter_last(vv(ws), |w: Seq<u8>| !(w.len() > 0 && w[0] == 45) && !is_float_literal(w), (k - 1) as int);
            }
            return w.clone();
        }
        k = k - 1;
    }
    proof {
        lemma_filter_none(vv(ws), |w: Seq<u8>| !(w.len() > 0 && w[0] == 45) && !is_float_literal(w));
    }
    vstd::slice::slice_to_vec(s)
}

/// When element `k` is the last one to pass `p`, it is the last element of
/// the filtered sequence.
proof fn lemma_filter_last(s: Seq<Seq<u8>>, p: spec_fn(Seq<u8>) -> bool, k: int)
    requires
        0 <= k < s.len(),
        p(s[k]),
        forall|j: int| k < j < s.len() ==> !p(#[trigger] s[j]),
    ensures
        s.filter(p).len() > 0,
        s.filter(p).last() == s[k],
    decreases s.len(),
{
    reveal(Seq::filter);
    if k == s.len() - 1 {
        assert(s.filter(p) == s.drop_last().filter(p).push(s.last()));
    } else {
        assert(s.drop_last().filter(p) == s.filter(p));
        assert forall|j: int| k < j < s.drop_last().len() implies !p(#[trigger] s.drop_last()[j]) by {
            assert(s.drop_last()[j] == s[j]);
        }
        lemma_filter_last(s.drop_last(), p, k);
    }
}

/// When no element passes `p`, the filtered sequence is empty.
proof fn lemma_filter_none(s: Seq<Seq<u8>>, p: spec_fn(Seq<u8>) -> bool)
    requires
        forall|j: int| 0 <= j < s.len() ==> !p(#[trigger] s[j]),
    ensures
        s.filter(p).len() == 0,
    decreases s.len(),
{
    reveal(Seq::filter);
    if s.len() > 0 {
        assert forall|j: int| 0 <= j < s.drop_last().len() implies !p(#[trigger] s.drop_last()[j]) by {
            assert(s.drop_last()[j] == s[j]);
        }
        lemma_filter_none(s.drop_last(), p);
    }
}

// ── Faces ────────────────────────────────────────────────────────────────────

/// One corner of a face: 0-based position, texture-coordinate and normal
/// indices.
#[derive(Debug, Clone, Copy, PartialEq, Eq, Structural)]
pub struct ObjRef {
    pub position: usize,
    pub uv: Option<usize>,
    pub normal: Option<usize>,
}

/// A polygon of three or more corners, with the smoothing group in force
/// where it was read.
#[derive(Debug, Clone)]
pub struct ObjFace {
    pub refs: Vec<ObjRef>,
    pub smoothing_group: u32,
}

pub struct ObjFaceView {
    pub refs: Seq<ObjRef>,
    pub smoothing_group: u32,
}

impl View for ObjFace {
    type V = ObjFaceView;

    open spec fn view(&self) -> ObjFaceView {
        ObjFaceView { refs: self.refs@, smoothing_group: self.smoothing_group }
    }
}

/// A face token split at its first two slashes: position part, then the
/// texture-coordinate part and the rest when there are slashes.
pub open spec fn token_parts(t: Seq<u8>) -> (Seq<u8>, Option<Seq<u8>>, Option<Seq<u8>>) {
    match index_of(t, 47) {
        None => (t, None, None),
        Some(i) => {
            let r = t.skip(i + 1int);
            match index_of(r, 47) {
                None => (t.take(i as int), Some(r), None),
                Some(j) => (t.take(i as int), Some(r.take(j as int)), Some(r.skip(j + 1int))),
            }
        },
    }
}

/// An optional index part: absent or empty gives none, and so does text
/// that is not an integer.
pub open spec fn opt_index(p: Option<Seq<u8>>) -> Option<i64> {
    match p {
        Some(s) => if s.len() > 0 {
            parse_i64_spec(s)
        } else {
            None
        },
        None => None,
    }
}

/// What one face token stands for: `Ok(None)` when its position part is
/// not an integer (the face is then dropped); an error for an index that
/// names nothing.
pub open spec fn face_ref_spec(t: Seq<u8>, np: usize, nu: usize, nn: usize) -> Result<Option<ObjRef>, ObjError> {
    let (p0, p1, p2) = token_parts(t);
    match parse_i64_spec(p0) {
        None => Ok(None),
        Some(vi_raw) => match resolve_idx_spec(vi_raw, np) {
            None => Err(ObjError::VertexIndexOutOfRange { raw: vi_raw }),
            Some(vi) => {
                let vt = opt_index(p1);
                let vn = opt_index(p2);
                if vt is Some && resolve_idx_spec(vt->0, nu) is None {
                    Err(ObjError::UvIndexOutOfRange { raw: vt->0 })
                } else if vn is Some && resolve_idx_spec(vn->0, nn) is None {
                    Err(ObjError::NormalIndexOutOfRange { raw: vn->0 })
                } else {
                    Ok(
                        Some(
                            ObjRef {
                                position: vi,
                                uv: match vt {
                                    Some(r) => resolve_idx_spec(r, nu),
                                    None => None,
                                },
                                normal: match vn {
                                    Some(r) => resolve_idx_spec(r, nn),
                                    None => None,
                                },
                            },
                        ),
                    )
                }
            },
        },
    }
}

/// The corners of the first `n` tokens, stopping at the first token that
/// drops the face (`Ok(None)`) or is an error.
pub open spec fn face_refs(ws: Seq<Seq<u8>>, np: usize, nu: usize, nn: usize, n: nat) -> Result<Option<Seq<ObjRef>>, ObjError>
    decreases n,
{
    if n == 0 {
        Ok(Some(seq![]))
    } else {
        match face_refs(ws, np, nu, nn, (n - 1) as nat) {
            Ok(Some(refs)) => match face_ref_spec(ws[n - 1], np, nu, nn) {
                Ok(Some(r)) => Ok(Some(refs.push(r))),
                Ok(None) => Ok(None),
                Err(e) => Err(e),
            },
            other => other,
        }
    }
}

/// What `parse_face` returns for the text after `f`.
pub open spec fn parse_face_spec(rest: Seq<u8>, np: usize, nu: usize, nn: usize, sg: u32) -> Result<Option<ObjFaceView>, ObjError> {
    let ws = words(rest);
    match face_refs(ws, np, nu, nn, ws.len()) {
        Err(e) => Err(e),
        Ok(None) => Ok(None),
        Ok(Some(refs)) => if refs.len() < 3 {
            Err(ObjError::TooFewCorners { count: refs.len() as usize })
        } else {
            Ok(Some(ObjFaceView { refs, smoothing_group: sg }))
        },
    }
}

fn split_token(t: &[u8]) -> (r: (Vec<u8>, Option<Vec<u8>>, Option<Vec<u8>>))
    ensures
        ({
            let (p0, p1, p2) = token_parts(t@);
            &&& r.0@ == p0
            &&& match (r.1, p1) {
                (Some(a), Some(b)) => a@ == b,
                (None, None) => true,
                _ => false,
            }
            &&& match (r.2, p2) {
                (Some(a), Some(b)) => a@ == b,
                (None, None) => true,
                _ => false,
            }
        }),
{
    let _n = t.len();
    match find_byte(t, 47) {
        None => (vstd::slice::slice_to_vec(t), None, None),
        Some(i) => {
            let r = copy_range(t, i + 1, t.len());
            let p0 = copy_range(t, 0, i);
            assert(r@ =~= t@.skip(i + 1));
            assert(p0@ =~= t@.take(i as int));
            match find_byte(r.as_slice(), 47) {
                None => (p0, Some(r), None),
                Some(j) => {
                    let _m = r.len();
                    let a = copy_range(r.as_slice(), 0, j);
                    let b = copy_range(r.as_slice(), j + 1, r.len());
                    assert(a@ =~= r@.take(j as int));
                    assert(b@ =~= r@.skip(j + 1));
                    (p0, Some(a), Some(b))
                },
            }
        },
    }
}

fn opt_index_exec(p: &Option<Vec<u8>>) -> (r: Option<i64>)
    ensures
        r == opt_index(match p {
            Some(v) => Some(v@),
            None => None,
        }),
{
    match p {
        Some(s) => if s.len() > 0 {
            parse_i64(s.as_slice())
        } else {
            None
        },
        None => None,
    }
}

fn face_ref(t: &[u8], np: usize, nu: usize, nn: usize) -> (r: Result<Option<ObjRef>, ObjError>)
    requires
        np <= i64::MAX,
        nu <= i64::MAX,
        nn <= i64::MAX,
    ensures
        r == face_ref_spec(t@, np, nu, nn),
{
    let (p0, p1, p2) = split_token(t);
    let vi_raw = match parse_i64(p0.as_slice()) {
        None => {
            return Ok(None);
        },
        Some(v) => v,
    };
    let vi = match resolve_idx(vi_raw, np) {
        None => {
            return Err(ObjError::VertexIndexOutOfRange { raw: vi_raw });
        },
        Some(v) => v,
    };
    let vt = opt_index_exec(&p1);
    let vn = opt_index_exec(&p2);
    let uv = match vt {
        Some(raw) => match resolve_idx(raw, nu) {
            None => {
                return Err(ObjError::UvIndexOutOfRange { raw });
            },
            Some(i) => Some(i),
        },
        None => None,
    };
    let normal = match vn {
        Some(raw) => match resolve_idx(raw, nn) {
            None => {
                return Err(ObjError::NormalIndexOutOfRange { raw });
            },
            Some(i) => Some(i),
        },
        None => None,
    };
    Ok(Some(ObjRef { position: vi, uv, normal }))
}

/// Reads the corners of an `f` statement (`v`, `v/vt`, `v//vn` or
/// `v/vt/vn` tokens) against the current numbers of positions, texture
/// coordinates and normals.
pub fn parse_face(rest: &[u8], np: usize, nu: usize, nn: usize, sg: u32) -> (r: Result<Option<ObjFace>, ObjError>)
    requires
        np <= i64::MAX,
        nu <= i64::MAX,
        nn <= i64::MAX,
    ensures
        match (r, parse_face_spec(rest@, np, nu, nn, sg)) {
            (Ok(Some(f)), Ok(Some(sf))) => f@ == sf,
            (Ok(None), Ok(None)) => true,
            (Err(e), Err(se)) => e == se,
            _ => false,
        },
{
    let ws = split_words(rest);
    let mut refs: Vec<ObjRef> = Vec::new();
    let mut k: usize = 0;
    while k < ws.len()
        invariant
            k <= ws@.len(),
            vv(ws) == words(rest@),
            np <= i64::MAX,
            nu <= i64::MAX,
            nn <= i64::MAX,
            face_refs(vv(ws), np, nu, nn, k as nat) == Ok::<Option<Seq<ObjRef>>, ObjError>(Some(refs@)),
        decreases ws@.len() - k,
    {
        match face_ref(ws[k].as_slice(), np, nu, nn) {
            Ok(Some(r)) => {
                refs.push(r);
            },
            Ok(None) => {
                proof {
                    lemma_face_refs_stop(vv(ws), np, nu, nn, (k + 1) as nat, ws@.len());
                }
                return Ok(None);
            },
            Err(e) => {
                proof {
                    lemma_face_refs_stop(vv(ws), np, nu, nn, (k + 1) as nat, ws@.len());
                }
                return Err(e);
            },
        }
        k = k + 1;
    }
    if refs.len() < 3 {
        return Err(ObjError::TooFewCorners { count: refs.len() });
    }
    Ok(Some(ObjFace { refs, smoothing_group: sg }))
}

proof fn lemma_face_refs_stop(ws: Seq<Seq<u8>>, np: usize, nu: usize, nn: usize, n: nat, m: nat)
    requires
        n <= m,
        !(face_refs(ws, np, nu, nn, n) is Ok && face_refs(ws, np, nu, nn, n)->Ok_0 is Some),
    ensures
        face_refs(ws, np, nu, nn, m) == face_refs(ws, np, nu, nn, n),
    decreases m,
{
    if m > n {
        lemma_face_refs_stop(ws, np, nu, nn, n, (m - 1) as nat);
    }
}

// ── OBJ statements ───────────────────────────────────────────────────────────

/// A texture coordinate as text; a missing or unreadable second value
/// stands for 0.
#[derive(Debug, Clone)]
pub struct TextVec2 {
    pub x: Vec<u8>,
    pub y: Option<Vec<u8>>,
}

pub struct TextVec2View {
    pub x: Seq<u8>,
    pub y: Option<Seq<u8>>,
}

impl View for TextVec2 {
    type V = TextVec2View;

    open spec fn view(&self) -> TextVec2View {
        TextVec2View {
            x: self.x@,
            y: match self.y {
                Some(v) => Some(v@),
                None => None,
            },
        }
    }
}

/// Faces that share one material (`usemtl`; empty: none).
#[derive(Debug, Clone)]
pub struct FaceRun {
    pub material: Vec<u8>,
    pub faces: Vec<ObjFace>,
}

pub struct FaceRunView {
    pub material: Seq<u8>,
    pub faces: Seq<ObjFaceView>,
}

impl View for FaceRun {
    type V = FaceRunView;

    open spec fn view(&self) -> FaceRunView {
        FaceRunView { material: self.material@, faces: self.faces@.map_values(|f: ObjFace| f@) }
    }
}

/// A named group or object (`g`, `o`), which becomes one mesh.
#[derive(Debug, Clone)]
pub struct ObjGroup {
    pub name: Vec<u8>,
    pub face_runs: Vec<FaceRun>,
}

pub struct ObjGroupView {
    pub name: Seq<u8>,
    pub face_runs: Seq<FaceRunView>,
}

impl View for ObjGroup {
    type V = ObjGroupView;

    open spec fn view(&self) -> ObjGroupView {
        ObjGroupView { name: self.name@, face_runs: self.face_runs@.map_values(|r: FaceRun| r@) }
    }
}

/// A parsed OBJ file.
#[derive(Debug, Clone)]
pub struct ObjData {
    pub positions: Vec<TextVec3>,
    pub normals: Vec<TextVec3>,
    pub uvs: Vec<TextVec2>,
    pub groups: Vec<ObjGroup>,
    pub mtllibs: Vec<Vec<u8>>,
}

pub struct ObjDataView {
    pub positions: Seq<TextVec3View>,
    pub normals: Seq<TextVec3View>,
    pub uvs: Seq<TextVec2View>,
    pub groups: Seq<ObjGroupView>,
    pub mtllibs: Seq<Seq<u8>>,
}

impl View for ObjData {
    type V = ObjDataView;

    open spec fn view(&self) -> ObjDataView {
        ObjDataView {
            positions: self.positions@.map_values(|v: TextVec3| v@),
            normals: self.normals@.map_values(|v: TextVec3| v@),
            uvs: self.uvs@.map_values(|v: TextVec2| v@),
            groups: self.groups@.map_values(|g: ObjGroup| g@),
            mtllibs: vv(self.mtllibs),
        }
    }
}

/// A statement line: keyword and the trimmed rest; `None` for a blank line
/// or a comment.
pub open spec fn statement(line: Seq<u8>) -> Option<(Seq<u8>, Seq<u8>)> {
    let l = trim(line);
    if l.len() == 0 || l[0] == 35 {
        None
    } else {
        let n = token_len(l);
        Some((l.take(n as int), trim(l.skip(n as int))))
    }
}

/// Three numbers: the first three words, each a float literal.
pub open spec fn vec3_of(rest: Seq<u8>) -> Option<TextVec3View> {
    let w = words(rest);
    if w.len() >= 3 && is_float_literal(w[0]) && is_float_literal(w[1]) && is_float_literal(w[2]) {
        Some(text3(w, 0))
    } else {
        None
    }
}

/// A texture coordinate: the first word must be a number; the second is
/// kept when it is one.
pub open spec fn vec2_of(rest: Seq<u8>) -> Option<TextVec2View> {
    let w = words(rest);
    if w.len() >= 1 && is_float_literal(w[0]) {
        Some(TextVec2View { x: w[0], y: if w.len() >= 2 && is_float_literal(w[1]) { Some(w[1]) } else { None } })
    } else {
        None
    }
}

/// The smoothing group an `s` statement sets: its number, 0 for `off` or
/// anything that is not a `u32`.
pub open spec fn smoothing_of(rest: Seq<u8>) -> u32 {
    match parse_u32_spec(rest) {
        Some(v) => v,
        None => 0,
    }
}

/// The reader's state between lines.
pub struct ObjState {
    pub positions: Seq<TextVec3View>,
    pub normals: Seq<TextVec3View>,
    pub uvs: Seq<TextVec2View>,
    pub groups: Seq<ObjGroupView>,
    pub mtllibs: Seq<Seq<u8>>,
    pub group: ObjGroupView,
    pub material: Seq<u8>,
    pub faces: Seq<ObjFaceView>,
    pub sg: u32,
}

pub open spec fn obj_start() -> ObjState {
    ObjState {
        positions: seq![],
        normals: seq![],
        uvs: seq![],
        groups: seq![],
        mtllibs: seq![],
        group: ObjGroupView { name: "default".spec_bytes(), face_runs: seq![] },
        material: seq![],
        faces: seq![],
        sg: 0,
    }
}

/// The faces read since the last material or group change become a run of
/// the current group.
pub open spec fn flush_faces(st: ObjState) -> ObjState {
    if st.faces.len() > 0 {
        ObjState {
            group: ObjGroupView {
                face_runs: st.group.face_runs.push(FaceRunView { material: st.material, faces: st.faces }),
                ..st.group
            },
            faces: seq![],
            ..st
        }
    } else {
        st
    }
}

/// The effect of one line of an OBJ file.
pub open spec fn obj_step(st: ObjState, line: Seq<u8>) -> Result<ObjState, ObjError> {
    match statement(line) {
        None => Ok(st),
        Some((kw, rest)) => if eq_ignore_case(kw, "v".spec_bytes()) {
            Ok(match vec3_of(rest) { Some(p) => ObjState { positions: st.positions.push(p), ..st }, None => st })
        } else if eq_ignore_case(kw, "vn".spec_bytes()) {
            Ok(match vec3_of(rest) { Some(n) => ObjState { normals: st.normals.push(n), ..st }, None => st })
        } else if eq_ignore_case(kw, "vt".spec_bytes()) {
            Ok(match vec2_of(rest) { Some(t) => ObjState { uvs: st.uvs.push(t), ..st }, None => st })
        } else if eq_ignore_case(kw, "f".spec_bytes()) {
            match parse_face_spec(rest, st.positions.len() as usize, st.uvs.len() as usize, st.normals.len() as usize, st.sg) {
                Err(e) => Err(e),
                Ok(Some(f)) => Ok(ObjState { faces: st.faces.push(f), ..st }),
                Ok(None) => Ok(st),
            }
        } else if eq_ignore_case(kw, "s".spec_bytes()) {
            Ok(ObjState { sg: smoothing_of(rest), ..st })
        } else if eq_ignore_case(kw, "usemtl".spec_bytes()) {
            Ok(ObjState { material: rest, ..flush_faces(st) })
        } else if eq_ignore_case(kw, "g".spec_bytes()) || eq_ignore_case(kw, "o".spec_bytes()) {
            let f = flush_faces(st);
            let groups = if f.group.face_runs.len() > 0 { f.groups.push(f.group) } else { f.groups };
            let name = if rest.len() == 0 { "group".spec_bytes() } else { rest };
            Ok(ObjState { groups, group: ObjGroupView { name, face_runs: seq![] }, ..f })
        } else if eq_ignore_case(kw, "mtllib".spec_bytes()) {
            Ok(ObjState { mtllibs: st.mtllibs + words(rest), ..st })
        } else {
            Ok(st)
        },
    }
}

/// The state after the first `n` lines, or the first error.
pub open spec fn obj_fold(ls: Seq<Seq<u8>>, n: nat) -> Result<ObjState, ObjError>
    decreases n,
{
    if n == 0 {
        Ok(obj_start())
    } else {
        match obj_fold(ls, (n - 1) as nat) {
            Err(e) => Err(e),
            Ok(st) => obj_step(st, ls[n - 1]),
        }
    }
}

/// The document at the end of the file: the last faces flushed, and the
/// last group kept when it has faces or is the only one.
pub open spec fn obj_finish(st: ObjState) -> ObjDataView {
    let f = flush_faces(st);
    ObjDataView {
        positions: f.positions,
        normals: f.normals,
        uvs: f.uvs,
        groups: if f.group.face_runs.len() > 0 || f.groups.len() == 0 { f.groups.push(f.group) } else { f.groups },
        mtllibs: f.mtllibs,
    }
}

/// What `parse_obj` returns for the text `src`.
pub open spec fn parse_obj_spec(src: Seq<u8>) -> Result<ObjDataView, ObjError> {
    match obj_fold(lines(src), lines(src).len()) {
        Err(e) => Err(e),
        Ok(st) => Ok(obj_finish(st)),
    }
}

struct ObjReader {
    positions: Vec<TextVec3>,
    normals: Vec<TextVec3>,
    uvs: Vec<TextVec2>,
    groups: Vec<ObjGroup>,
    mtllibs: Vec<Vec<u8>>,
    group: ObjGroup,
    material: Vec<u8>,
    faces: Vec<ObjFace>,
    sg: u32,
}

impl View for ObjReader {
    type V = ObjState;

    closed spec fn view(&self) -> ObjState {
        ObjState {
            positions: self.positions@.map_values(|v: TextVec3| v@),
            normals: self.normals@.map_values(|v: TextVec3| v@),
            uvs: self.uvs@.map_values(|v: TextVec2| v@),
            groups: self.groups@.map_values(|g: ObjGroup| g@),
            mtllibs: vv(self.mtllibs),
            group: self.group@,
            material: self.material@,
            faces: self.faces@.map_values(|f: ObjFace| f@),
            sg: self.sg,
        }
    }
}

fn vec3_exec(rest: &[u8]) -> (r: Option<TextVec3>)
    ensures
        match (r, vec3_of(rest@)) {
            (Some(v), Some(sv)) => v@ == sv,
            (None, None) => true,
            _ => false,
        },
{
    let w = split_words(rest);
    if w.len() >= 3 && is_float_literal_exec(w[0].as_slice()) && is_float_literal_exec(w[1].as_slice())
        && is_float_literal_exec(w[2].as_slice()) {
        Some(text3_exec(&w, 0))
    } else {
        None
    }
}

fn vec2_exec(rest: &[u8]) -> (r: Option<TextVec2>)
    ensures
        match (r, vec2_of(rest@)) {
            (Some(v), Some(sv)) => v@ == sv,
            (None, None) => true,
            _ => false,
        },
{
    let w = split_words(rest);
    if w.len() >= 1 && is_float_literal_exec(w[0].as_slice()) {
        let y = if w.len() >= 2 && is_float_literal_exec(w[1].as_slice()) { Some(w[1].clone()) } else { None };
        Some(TextVec2 { x: w[0].clone(), y })
    } else {
        None
    }
}

fn statement_exec(line: &[u8]) -> (r: Option<(Vec<u8>, Vec<u8>)>)
    ensures
        match (r, statement(line@)) {
            (Some((k, x)), Some((sk, sx))) => k@ == sk && x@ == sx,
            (None, None) => true,
            _ => false,
        },
{
    let l = trim_bytes(line);
    if l.len() == 0 || l[0] == 35 {
        return None;
    }
    let mut n: usize = 0;
    assert(l@.skip(0) =~= l@);
    while n < l.len() && !(l[n] == 32 || (9 <= l[n] && l[n] <= 13))
        invariant
            n <= l@.len(),
            token_len(l@) == n + token_len(l@.skip(n as int)),
        decreases l@.len() - n,
    {
        assert(l@.skip(n as int).drop_first() =~= l@.skip(n + 1));
        n = n + 1;
    }
    proof {
        assert(l@.skip(0) =~= l@);
    }
    let kw = copy_range(l.as_slice(), 0, n);
    let after = copy_range(l.as_slice(), n, l.len());
    assert(kw@ =~= l@.take(n as int));
    assert(after@ =~= l@.skip(n as int));
    Some((kw, trim_bytes(after.as_slice())))
}

fn is_kw(kw: &[u8], s: &str) -> (r: bool)
    ensures
        r == eq_ignore_case(kw@, s.spec_bytes()),
{
    eq_bytes_ignore_case(kw, s.as_bytes())
}

impl ObjReader {
    fn new() -> (r: ObjReader)
        ensures
            r@ == obj_start(),
    {
        let r = ObjReader {
            positions: Vec::new(),
            normals: Vec::new(),
            uvs: Vec::new(),
            groups: Vec::new(),
            mtllibs: Vec::new(),
            group: ObjGroup { name: literal("default"), face_runs: Vec::new() },
            material: Vec::new(),
            faces: Vec::new(),
            sg: 0,
        };
        proof {
            assert(r@.positions =~= obj_start().positions);
            assert(r@.normals =~= obj_start().normals);
            assert(r@.uvs =~= obj_start().uvs);
            assert(r@.groups =~= obj_start().groups);
            assert(r@.mtllibs =~= obj_start().mtllibs);
            assert(r@.group.face_runs =~= obj_start().group.face_runs);
            assert(r@.faces =~= obj_start().faces);
        }
        r
    }

    fn flush(&mut self)
        ensures
            final(self)@ == flush_faces(old(self)@),
    {
        if self.faces.len() > 0 {
            let mut faces: Vec<ObjFace> = Vec::new();
            std::mem::swap(&mut faces, &mut self.faces);
            let run = FaceRun { material: self.material.clone(), faces };
            self.group.face_runs.push(run);
            proof {
                assert(self@.faces =~= Seq::<ObjFaceView>::empty());
                assert(self@.group.face_runs =~= old(self)@.group.face_runs.push(
                    FaceRunView { material: old(self)@.material, faces: old(self)@.faces },
                ));
            }
        }
    }

    fn step(&mut self, line: &[u8]) -> (r: Result<(), ObjError>)
        requires
            old(self)@.positions.len() <= i64::MAX,
            old(self)@.uvs.len() <= i64::MAX,
            old(self)@.normals.len() <= i64::MAX,
        ensures
            match (r, obj_step(old(self)@, line@)) {
                (Ok(_), Ok(st)) => final(self)@ == st,
                (Err(e), Err(se)) => e == se,
                _ => false,
            },
    {
        let (kw, rest) = match statement_exec(line) {
            None => {
                return Ok(());
            },
            Some(t) => t,
        };
        let kw = kw.as_slice();
        let rest_s = rest.as_slice();
        if is_kw(kw, "v") {
            if let Some(p) = vec3_exec(rest_s) {
                self.positions.push(p);
                assert(self@.positions =~= old(self)@.positions.push(p@));
            }
            Ok(())
        } else if is_kw(kw, "vn") {
            if let Some(n) = vec3_exec(rest_s) {
                self.normals.push(n);
                assert(self@.normals =~= old(self)@.normals.push(n@));
            }
            Ok(())
        } else if is_kw(kw, "vt") {
            if let Some(t) = vec2_exec(rest_s) {
                self.uvs.push(t);
                assert(self@.uvs =~= old(self)@.uvs.push(t@));
            }
            Ok(())
        } else if is_kw(kw, "f") {
            match parse_face(rest_s, self.positions.len(), self.uvs.len(), self.normals.len(), self.sg) {
                Err(e) => Err(e),
                Ok(Some(f)) => {
                    self.faces.push(f);
                    assert(self@.faces =~= old(self)@.faces.push(f@));
                    Ok(())
                },
                Ok(None) => Ok(()),
            }
        } else if is_kw(kw, "s") {
            self.sg = match parse_u32(rest_s) {
                Some(v) => v,
                None => 0,
            };
            Ok(())
        } else if is_kw(kw, "usemtl") {
            self.flush();
            self.material = rest;
            Ok(())
        } else if is_kw(kw, "g") || is_kw(kw, "o") {
            self.flush();
            let ghost f = self@;
            let name = if rest.len() == 0 { literal("group") } else { rest };
            let mut old_group = ObjGroup { name, face_runs: Vec::new() };
            std::mem::swap(&mut old_group, &mut self.group);
            if old_group.face_runs.len() > 0 {
                self.groups.push(old_group);
                assert(self@.groups =~= f.groups.push(f.group));
            }
            assert(self@.group.face_runs =~= Seq::<FaceRunView>::empty());
            Ok(())
        } else if is_kw(kw, "mtllib") {
            let ws = split_words(rest_s);
            let mut i: usize = 0;
            let ghost before = self@;
            while i < ws.len()
                invariant
                    i <= ws@.len(),
                    vv(ws) == words(rest@),
                    self@ == (ObjState { mtllibs: before.mtllibs + words(rest@).take(i as int), ..before }),
                decreases ws@.len() - i,
            {
                let ghost old_m = vv(self.mtllibs);
                let w = ws[i].clone();
                self.mtllibs.push(w);
                proof {
                    assert(vv(self.mtllibs) =~= old_m.push(w@));
                    assert(w@ == words(rest@)[i as int]);
                    assert(words(rest@).take(i + 1) =~= words(rest@).take(i as int).push(words(rest@)[i as int]));
                    assert(vv(self.mtllibs) =~= before.mtllibs + words(rest@).take(i + 1));
                }
                i = i + 1;
            }
            assert(words(rest@).take(i as int) =~= words(rest@));
            Ok(())
        } else {
            Ok(())
        }
    }

    fn finish(self) -> (r: ObjData)
        ensures
            r@ == obj_finish(self@),
    {
        let mut rd = self;
        rd.flush();
        let ghost f = rd@;
        let mut groups = rd.groups;
        if rd.group.face_runs.len() > 0 || groups.len() == 0 {
            groups.push(rd.group);
            assert(groups@.map_values(|g: ObjGroup| g@) =~= f.groups.push(f.group));
        }
        ObjData { positions: rd.positions, normals: rd.normals, uvs: rd.uvs, groups, mtllibs: rd.mtllibs }
    }
}

/// Reads an OBJ file: positions, normals and texture coordinates (as
/// text), groups of face runs, and material libraries.
pub fn parse_obj(src: &[u8]) -> (r: Result<ObjData, ObjError>)
    requires
        src@.len() <= i64::MAX,
    ensures
        match (r, parse_obj_spec(src@)) {
            (Ok(d), Ok(sd)) => d@ == sd,
            (Err(e), Err(se)) => e == se,
            _ => false,
        },
{
    let ls = split_lines(src);
    proof {
        crate::text::lemma_lines_len(src@);
    }
    let mut rd = ObjReader::new();
    let mut i: usize = 0;
    while i < ls.len()
        invariant
            i <= ls@.len(),
            ls@.len() <= src@.len(),
            src@.len() <= i64::MAX,
            vv(ls) == lines(src@),
            obj_fold(vv(ls), i as nat) == Ok::<ObjState, ObjError>(rd@),
            rd@.positions.len() <= i,
            rd@.uvs.len() <= i,
            rd@.normals.len() <= i,
        decreases ls@.len() - i,
    {
        match rd.step(ls[i].as_slice()) {
            Ok(_) => {},
            Err(e) => {
                proof {
                    lemma_obj_fold_err(vv(ls), (i + 1) as nat, ls@.len());
                }
                return Err(e);
            },
        }
        i = i + 1;
    }
    Ok(rd.finish())
}

proof fn lemma_obj_fold_err(ls: Seq<Seq<u8>>, n: nat, m: nat)
    requires
        n <= m,
        obj_fold(ls, n) is Err,
    ensures
        obj_fold(ls, m) == obj_fold(ls, n),
    decreases m,
{
    if m > n {
        lemma_obj_fold_err(ls, n, (m - 1) as nat);
    }
}

// ── MTL ──────────────────────────────────────────────────────────────────────

/// Where a material's opacity comes from: `d` gives it, `Tr` gives one
/// minus it.
#[derive(Debug, Clone)]
pub enum Opacity {
    Dissolve(Vec<u8>),
    Transparency(Vec<u8>),
}

pub enum OpacityView {
    Dissolve(Seq<u8>),
    Transparency(Seq<u8>),
}

impl View for Opacity {
    type V = OpacityView;

    open spec fn view(&self) -> OpacityView {
        match self {
            Opacity::Dissolve(v) => OpacityView::Dissolve(v@),
            Opacity::Transparency(v) => OpacityView::Transparency(v@),
        }
    }
}

/// A material of an MTL library. Numbers are text; an absent value stands
/// for the default (`Ka` 0.2, `Kd` 0.8, `Ks` and `Ke` 0, opacity 1,
/// `Ns` 32).
#[derive(Debug, Clone)]
pub struct MtlMaterial {
    pub name: Vec<u8>,
    pub ka: Option<TextVec3>,
    pub kd: Option<TextVec3>,
    pub ks: Option<TextVec3>,
    pub ke: Option<TextVec3>,
    pub opacity: Option<Opacity>,
    pub ns: Option<Vec<u8>>,
    pub pm: Option<Vec<u8>>,
    pub pr: Option<Vec<u8>>,
    pub map_kd: Option<Vec<u8>>,
    pub map_ks: Option<Vec<u8>>,
    pub map_bump: Option<Vec<u8>>,
    pub map_roughness: Option<Vec<u8>>,
    pub map_pm: Option<Vec<u8>>,
    pub map_ke: Option<Vec<u8>>,
}

pub struct MtlView {
    pub name: Seq<u8>,
    pub ka: Option<TextVec3View>,
    pub kd: Option<TextVec3View>,
    pub ks: Option<TextVec3View>,
    pub ke: Option<TextVec3View>,
    pub opacity: Option<OpacityView>,
    pub ns: Option<Seq<u8>>,
    pub pm: Option<Seq<u8>>,
    pub pr: Option<Seq<u8>>,
    pub map_kd: Option<Seq<u8>>,
    pub map_ks: Option<Seq<u8>>,
    pub map_bump: Option<Seq<u8>>,
    pub map_roughness: Option<Seq<u8>>,
    pub map_pm: Option<Seq<u8>>,
    pub map_ke: Option<Seq<u8>>,
}

pub open spec fn ov(o: Option<Vec<u8>>) -> Option<Seq<u8>> {
    match o {
        Some(v) => Some(v@),
        None => None,
    }
}

pub open spec fn o3(o: Option<TextVec3>) -> Option<TextVec3View> {
    match o {
        Some(v) => Some(v@),
        None => None,
    }
}

impl View for MtlMaterial {
    type V = MtlView;

    open spec fn view(&self) -> MtlView {
        MtlView {
            name: self.name@,
            ka: o3(self.ka),
            kd: o3(self.kd),
            ks: o3(self.ks),
            ke: o3(self.ke),
            opacity: match self.opacity {
                Some(o) => Some(o@),
                None => None,
            },
            ns: ov(self.ns),
            pm: ov(self.pm),
            pr: ov(self.pr),
            map_kd: ov(self.map_kd),
            map_ks: ov(self.map_ks),
            map_bump: ov(self.map_bump),
            map_roughness: ov(self.map_roughness),
            map_pm: ov(self.map_pm),
            map_ke: ov(self.map_ke),
        }
    }
}

pub open spec fn new_material(name: Seq<u8>) -> MtlView {
    MtlView {
        name,
        ka: None,
        kd: None,
        ks: None,
        ke: None,
        opacity: None,
        ns: None,
        pm: None,
        pr: None,
        map_kd: None,
        map_ks: None,
        map_bump: None,
        map_roughness: None,
        map_pm: None,
        map_ke: None,
    }
}

/// The number `rest` holds, when it is one.
pub open spec fn number_of(rest: Seq<u8>) -> Option<Seq<u8>> {
    if is_float_literal(rest) {
        Some(rest)
    } else {
        None
    }
}

/// The effect of a statement on the material being read.
pub open spec fn mtl_apply(m: MtlView, kw: Seq<u8>, rest: Seq<u8>) -> MtlView {
    if eq_ignore_case(kw, "ka".spec_bytes()) {
        if vec3_of(rest) is Some { MtlView { ka: vec3_of(rest), ..m } } else { m }
    } else if eq_ignore_case(kw, "kd".spec_bytes()) {
        if vec3_of(rest) is Some { MtlView { kd: vec3_of(rest), ..m } } else { m }
    } else if eq_ignore_case(kw, "ks".spec_bytes()) {
        if vec3_of(rest) is Some { MtlView { ks: vec3_of(rest), ..m } } else { m }
    } else if eq_ignore_case(kw, "ke".spec_bytes()) {
        if vec3_of(rest) is Some { MtlView { ke: vec3_of(rest), ..m } } else { m }
    } else if eq_ignore_case(kw, "d".spec_bytes()) {
        if is_float_literal(rest) { MtlView { opacity: Some(OpacityView::Dissolve(rest)), ..m } } else { m }
    } else if eq_ignore_case(kw, "tr".spec_bytes()) {
        if is_float_literal(rest) { MtlView { opacity: Some(OpacityView::Transparency(rest)), ..m } } else { m }
    } else if eq_ignore_case(kw, "ns".spec_bytes()) {
        if is_float_literal(rest) { MtlView { ns: Some(rest), ..m } } else { m }
    } else if eq_ignore_case(kw, "pm".spec_bytes()) {
        if is_float_literal(rest) { MtlView { pm: Some(rest), ..m } } else { m }
    } else if eq_ignore_case(kw, "pr".spec_bytes()) {
        if is_float_literal(rest) { MtlView { pr: Some(rest), ..m } } else { m }
    } else if eq_ignore_case(kw, "map_kd".spec_bytes()) {
        MtlView { map_kd: Some(tex_path_spec(rest)), ..m }
    } else if eq_ignore_case(kw, "map_ks".spec_bytes()) {
        MtlView { map_ks: Some(tex_path_spec(rest)), ..m }
    } else if eq_ignore_case(kw, "map_bump".spec_bytes()) || eq_ignore_case(kw, "bump".spec_bytes())
        || eq_ignore_case(kw, "norm".spec_bytes()) {
        if strip_options_spec(rest).len() > 0 { MtlView { map_bump: Some(strip_options_spec(rest)), ..m } } else { m }
    } else if eq_ignore_case(kw, "map_ns".spec_bytes()) || eq_ignore_case(kw, "map_pr".spec_bytes()) {
        MtlView { map_roughness: Some(tex_path_spec(rest)), ..m }
    } else if eq_ignore_case(kw, "map_pm".spec_bytes()) {
        MtlView { map_pm: Some(tex_path_spec(rest)), ..m }
    } else if eq_ignore_case(kw, "map_ke".spec_bytes()) {
        MtlView { map_ke: Some(tex_path_spec(rest)), ..m }
    } else {
        m
    }
}

/// Index of the first material named `name`.
pub open spec fn material_index(ms: Seq<MtlView>, name: Seq<u8>) -> Option<nat>
    decreases ms.len(),
{
    if ms.len() == 0 {
        None
    } else {
        match material_index(ms.drop_last(), name) {
            Some(i) => Some(i),
            None => if ms.last().name == name {
                Some((ms.len() - 1) as nat)
            } else {
                None
            },
        }
    }
}

/// Adds a material to a library; one of the same name is replaced.
pub open spec fn mtl_insert(ms: Seq<MtlView>, m: MtlView) -> Seq<MtlView> {
    match material_index(ms, m.name) {
        Some(i) => ms.update(i as int, m),
        None => ms.push(m),
    }
}

pub struct MtlState {
    pub materials: Seq<MtlView>,
    pub cur: Option<MtlView>,
}

/// The effect of one line of an MTL file: `newmtl` stores the material
/// being read and starts another; other statements apply to the material
/// being read, and are ignored before the first `newmtl`.
pub open spec fn mtl_step(st: MtlState, line: Seq<u8>) -> MtlState {
    match statement(line) {
        None => st,
        Some((kw, rest)) => if eq_ignore_case(kw, "newmtl".spec_bytes()) {
            MtlState {
                materials: match st.cur {
                    Some(m) => mtl_insert(st.materials, m),
                    None => st.materials,
                },
                cur: Some(new_material(rest)),
            }
        } else {
            match st.cur {
                None => st,
                Some(m) => MtlState { cur: Some(mtl_apply(m, kw, rest)), ..st },
            }
        },
    }
}

pub open spec fn mtl_fold(ls: Seq<Seq<u8>>, n: nat) -> MtlState
    decreases n,
{
    if n == 0 {
        MtlState { materials: seq![], cur: None }
    } else {
        mtl_step(mtl_fold(ls, (n - 1) as nat), ls[n - 1])
    }
}

/// What `parse_mtl` returns: the materials of the file, each name once.
pub open spec fn parse_mtl_spec(src: Seq<u8>) -> Seq<MtlView> {
    let st = mtl_fold(lines(src), lines(src).len());
    match st.cur {
        Some(m) => mtl_insert(st.materials, m),
        None => st.materials,
    }
}

fn clone_opt(o: &Option<Vec<u8>>) -> (r: Option<Vec<u8>>)
    ensures
        ov(r) == ov(*o),
{
    match o {
        Some(v) => Some(v.clone()),
        None => None,
    }
}

fn number_exec(rest: &Vec<u8>) -> (r: Option<Vec<u8>>)
    ensures
        ov(r) == number_of(rest@),
{
    if is_float_literal_exec(rest.as_slice()) {
        Some(rest.clone())
    } else {
        None
    }
}

fn apply_statement(m: &mut MtlMaterial, kw: &[u8], rest: &Vec<u8>)
    ensures
        final(m)@ == mtl_apply(old(m)@, kw@, rest@),
        eq_ignore_case(kw@, "d".spec_bytes()) && is_float_literal(rest@) ==> final(m)@.opacity == Some(
            OpacityView::Dissolve(rest@),
        ),
        eq_ignore_case(kw@, "tr".spec_bytes()) && is_float_literal(rest@) ==> final(m)@.opacity == Some(
            OpacityView::Transparency(rest@),
        ),
{
    proof {
        lemma_opacity_statements(old(m)@, kw@, rest@);
    }
    let r = rest.as_slice();
    if is_kw(kw, "ka") {
        if let Some(v) = vec3_exec(r) { m.ka = Some(v); }
    } else if is_kw(kw, "kd") {
        if let Some(v) = vec3_exec(r) { m.kd = Some(v); }
    } else if is_kw(kw, "ks") {
        if let Some(v) = vec3_exec(r) { m.ks = Some(v); }
    } else if is_kw(kw, "ke") {
        if let Some(v) = vec3_exec(r) { m.ke = Some(v); }
    } else if is_kw(kw, "d") {
        if is_float_literal_exec(r) { m.opacity = Some(Opacity::Dissolve(rest.clone())); }
    } else if is_kw(kw, "tr") {
        if is_float_literal_exec(r) { m.opacity = Some(Opacity::Transparency(rest.clone())); }
    } else if is_kw(kw, "ns") {
        if let Some(v) = number_exec(rest) { m.ns = Some(v); }
    } else if is_kw(kw, "pm") {
        if let Some(v) = number_exec(rest) { m.pm = Some(v); }
    } else if is_kw(kw, "pr") {
        if let Some(v) = number_exec(rest) { m.pr = Some(v); }
    } else if is_kw(kw, "map_kd") {
        m.map_kd = Some(tex_path(r));
    } else if is_kw(kw, "map_ks") {
        m.map_ks = Some(tex_path(r));
    } else if is_kw(kw, "map_bump") || is_kw(kw, "bump") || is_kw(kw, "norm") {
        let p = strip_options(r);
        if p.len() > 0 { m.map_bump = Some(p); }
    } else if is_kw(kw, "map_ns") || is_kw(kw, "map_pr") {
        m.map_roughness = Some(tex_path(r));
    } else if is_kw(kw, "map_pm") {
        m.map_pm = Some(tex_path(r));
    } else if is_kw(kw, "map_ke") {
        m.map_ke = Some(tex_path(r));
    }
}

fn blank_material(name: Vec<u8>) -> (r: MtlMaterial)
    ensures
        r@ == new_material(name@),
{
    MtlMaterial {
        name,
        ka: None,
        kd: None,
        ks: None,
        ke: None,
        opacity: None,
        ns: None,
        pm: None,
        pr: None,
        map_kd: None,
        map_ks: None,
        map_bump: None,
        map_roughness: None,
        map_pm: None,
        map_ke: None,
    }
}

proof fn lemma_material_index(ms: Seq<MtlView>, name: Seq<u8>, k: int)
    requires
        0 <= k <= ms.len(),
        forall|j: int| 0 <= j < k ==> ms[j].name != name,
    ensures
        k < ms.len() && ms[k].name == name ==> material_index(ms, name) == Some(k as nat),
        k == ms.len() ==> material_index(ms, name) is None,
    decreases ms.len(),
{
    if ms.len() > 0 {
        if k < ms.len() {
            if k < ms.len() - 1 {
                lemma_material_index(ms.drop_last(), name, k);
            } else {
                lemma_material_index(ms.drop_last(), name, k);
            }
        } else {
            lemma_material_index(ms.drop_last(), name, k - 1);
        }
    }
}

/// The position of the material named `name`, as a material run refers
/// to it.
pub fn find_material(ms: &Vec<MtlMaterial>, name: &[u8]) -> (r: Option<usize>)
    ensures
        match (r, material_index(ms@.map_values(|x: MtlMaterial| x@), name@)) {
            (Some(i), Some(j)) => i == j,
            (None, None) => true,
            _ => false,
        },
{
    let ghost vs = ms@.map_values(|x: MtlMaterial| x@);
    let mut i: usize = 0;
    while i < ms.len()
        invariant
            i <= ms@.len(),
            vs == ms@.map_values(|x: MtlMaterial| x@),
            forall|j: int| 0 <= j < i ==> vs[j].name != name@,
        decreases ms@.len() - i,
    {
        if eq_bytes(ms[i].name.as_slice(), name) {
            proof {
                assert(vs[i as int] == ms@[i as int]@);
                lemma_material_index(vs, name@, i as int);
            }
            return Some(i);
        }
        assert(vs[i as int] == ms@[i as int]@);
        i = i + 1;
    }
    proof {
        lemma_material_index(vs, name@, i as int);
    }
    None
}

fn insert_material(ms: &mut Vec<MtlMaterial>, m: MtlMaterial)
    ensures
        final(ms)@.map_values(|x: MtlMaterial| x@) == mtl_insert(old(ms)@.map_values(|x: MtlMaterial| x@), m@),
{
    let ghost before = ms@.map_values(|x: MtlMaterial| x@);
    let mut i: usize = 0;
    while i < ms.len()
        invariant
            i <= ms@.len(),
            ms@.map_values(|x: MtlMaterial| x@) == before,
            before == old(ms)@.map_values(|x: MtlMaterial| x@),
            forall|j: int| 0 <= j < i ==> before[j].name != m@.name,
        decreases ms@.len() - i,
    {
        if eq_bytes(ms[i].name.as_slice(), m.name.as_slice()) {
            proof {
                assert(before[i as int] == ms@[i as int]@);
                assert(before[i as int].name == m@.name);
                lemma_material_index(before, m@.name, i as int);
            }
            ms.set(i, m);
            assert(ms@.map_values(|x: MtlMaterial| x@) =~= before.update(i as int, m@));
            assert(material_index(before, m@.name) == Some(i as nat));
            assert(mtl_insert(before, m@) == before.update(i as int, m@));
            return;
        }
        i = i + 1;
    }
    proof {
        lemma_material_index(before, m@.name, i as int);
    }
    ms.push(m);
    assert(ms@.map_values(|x: MtlMaterial| x@) =~= before.push(m@));
}

/// Reads an MTL material library.
pub fn parse_mtl(src: &[u8]) -> (r: Vec<MtlMaterial>)
    ensures
        r@.map_values(|m: MtlMaterial| m@) == parse_mtl_spec(src@),
{
    let ls = split_lines(src);
    let mut materials: Vec<MtlMaterial> = Vec::new();
    let mut cur: Option<MtlMaterial> = None;
    let mut i: usize = 0;
    assert(materials@.map_values(|m: MtlMaterial| m@) =~= Seq::<MtlView>::empty());
    while i < ls.len()
        invariant
            i <= ls@.len(),
            vv(ls) == lines(src@),
            mtl_fold(vv(ls), i as nat) == (MtlState {
                materials: materials@.map_values(|m: MtlMaterial| m@),
                cur: match cur {
                    Some(m) => Some(m@),
                    None => None,
                },
            }),
        decreases ls@.len() - i,
    {
        match statement_exec(ls[i].as_slice()) {
            None => {},
            Some((kw, rest)) => {
                if is_kw(kw.as_slice(), "newmtl") {
                    let mut next = Some(blank_material(rest));
                    std::mem::swap(&mut next, &mut cur);
                    if let Some(m) = next {
                        insert_material(&mut materials, m);
                    }
                } else {
                    match &mut cur {
                        None => {},
                        Some(m) => {
                            apply_statement(m, kw.as_slice(), &rest);
                        },
                    }
                }
            },
        }
        i = i + 1;
    }
    if let Some(m) = cur {
        insert_material(&mut materials, m);
    }
    materials
}


// ── Material textures ────────────────────────────────────────────────────

/// The texture slots of a material, in the order a scene receives them.
#[derive(Debug, Clone, Copy, PartialEq, Eq, Structural)]
pub enum TextureSlot {
    Diffuse,
    Specular,
    Roughness,
    Metallic,
    Normal,
    Emissive,
}

impl TextureSlot {
    /// The suffix of the texture's name (`<material>_<suffix>`).
    pub fn suffix(self) -> (r: &'static str)
        ensures
            r@ == slot_suffix(self),
    {
        match self {
            TextureSlot::Diffuse => "diffuse",
            TextureSlot::Specular => "specular",
            TextureSlot::Roughness => "roughness",
            TextureSlot::Metallic => "metallic",
            TextureSlot::Normal => "normal",
            TextureSlot::Emissive => "emissive",
        }
    }

    /// Whether the texture feeds the metallic-roughness channel (of
    /// several, the last one does).
    pub fn is_metallic_roughness(self) -> (r: bool)
        ensures
            r == (self == TextureSlot::Specular || self == TextureSlot::Roughness || self == TextureSlot::Metallic),
    {
        match self {
            TextureSlot::Specular | TextureSlot::Roughness | TextureSlot::Metallic => true,
            _ => false,
        }
    }
}

pub open spec fn slot_suffix(s: TextureSlot) -> Seq<char> {
    match s {
        TextureSlot::Diffuse => "diffuse"@,
        TextureSlot::Specular => "specular"@,
        TextureSlot::Roughness => "roughness"@,
        TextureSlot::Metallic => "metallic"@,
        TextureSlot::Normal => "normal"@,
        TextureSlot::Emissive => "emissive"@,
    }
}

pub open spec fn slot_if(slot: TextureSlot, path: Option<Seq<u8>>) -> Seq<(TextureSlot, Seq<u8>)> {
    match path {
        Some(p) => seq![(slot, p)],
        None => seq![],
    }
}

/// The textures of a material: diffuse (`map_Kd`), specular (`map_Ks`),
/// roughness (`map_Ns`/`map_Pr`), metallic (`map_Pm`), normal (bump) and
/// emissive (`map_Ke`), each where the material names one.
pub open spec fn material_textures_spec(m: MtlView) -> Seq<(TextureSlot, Seq<u8>)> {
    slot_if(TextureSlot::Diffuse, m.map_kd) + slot_if(TextureSlot::Specular, m.map_ks) + slot_if(
        TextureSlot::Roughness,
        m.map_roughness,
    ) + slot_if(TextureSlot::Metallic, m.map_pm) + slot_if(TextureSlot::Normal, m.map_bump) + slot_if(
        TextureSlot::Emissive,
        m.map_ke,
    )
}

fn push_slot(out: &mut Vec<(TextureSlot, Vec<u8>)>, slot: TextureSlot, path: &Option<Vec<u8>>)
    ensures
        final(out)@.map_values(|e: (TextureSlot, Vec<u8>)| (e.0, e.1@)) == old(out)@.map_values(
            |e: (TextureSlot, Vec<u8>)| (e.0, e.1@),
        ) + slot_if(slot, ov(*path)),
{
    let ghost before = out@.map_values(|e: (TextureSlot, Vec<u8>)| (e.0, e.1@));
    match path {
        Some(p) => {
            out.push((slot, copy_range(p.as_slice(), 0, p.len())));
            assert(p@.subrange(0, p@.len() as int) =~= p@);
            assert(out@.map_values(|e: (TextureSlot, Vec<u8>)| (e.0, e.1@)) =~= before + seq![(slot, p@)]);
        },
        None => {
            assert(before + Seq::<(TextureSlot, Seq<u8>)>::empty() =~= before);
        },
    }
}

/// The textures a material brings into a scene, in order.
pub fn material_textures(m: &MtlMaterial) -> (r: Vec<(TextureSlot, Vec<u8>)>)
    ensures
        r@.map_values(|e: (TextureSlot, Vec<u8>)| (e.0, e.1@)) == material_textures_spec(m@),
{
    let mut out: Vec<(TextureSlot, Vec<u8>)> = Vec::new();
    assert(out@.map_values(|e: (TextureSlot, Vec<u8>)| (e.0, e.1@)) =~= Seq::<(TextureSlot, Seq<u8>)>::empty());
    push_slot(&mut out, TextureSlot::Diffuse, &m.map_kd);
    push_slot(&mut out, TextureSlot::Specular, &m.map_ks);
    push_slot(&mut out, TextureSlot::Roughness, &m.map_roughness);
    push_slot(&mut out, TextureSlot::Metallic, &m.map_pm);
    push_slot(&mut out, TextureSlot::Normal, &m.map_bump);
    push_slot(&mut out, TextureSlot::Emissive, &m.map_ke);
    assert(out@.map_values(|e: (TextureSlot, Vec<u8>)| (e.0, e.1@)) =~= material_textures_spec(m@));
    out
}

// ── Laws of material statements ──────────────────────────────────────────

proof fn lemma_tr_not_k(kw: Seq<u8>)
    requires
        eq_ignore_case(kw, "tr".spec_bytes()),
    ensures
        !eq_ignore_case(kw, "ka".spec_bytes()),
        !eq_ignore_case(kw, "kd".spec_bytes()),
        !eq_ignore_case(kw, "ks".spec_bytes()),
        !eq_ignore_case(kw, "ke".spec_bytes()),
{
    reveal_strlit("tr");
    vstd::string::is_ascii_spec_bytes("tr");
    reveal_strlit("ka");
    vstd::string::is_ascii_spec_bytes("ka");
    reveal_strlit("kd");
    vstd::string::is_ascii_spec_bytes("kd");
    reveal_strlit("ks");
    vstd::string::is_ascii_spec_bytes("ks");
    reveal_strlit("ke");
    vstd::string::is_ascii_spec_bytes("ke");
    assert(crate::text::lower(kw[0]) == crate::text::lower("tr".spec_bytes()[0]));
}

/// A `d` statement gives the material's dissolve (1 is fully opaque) and a
/// `Tr` statement its transparency, each with the number as written; every
/// other statement leaves the opacity as it was, and a `d` or `Tr` whose
/// value is not a number is ignored.
pub proof fn lemma_opacity_statements(m: MtlView, kw: Seq<u8>, rest: Seq<u8>)
    ensures
        eq_ignore_case(kw, "d".spec_bytes()) && is_float_literal(rest) ==> mtl_apply(m, kw, rest).opacity == Some(
            OpacityView::Dissolve(rest),
        ),
        eq_ignore_case(kw, "tr".spec_bytes()) && is_float_literal(rest) ==> mtl_apply(m, kw, rest).opacity == Some(
            OpacityView::Transparency(rest),
        ),
        !(eq_ignore_case(kw, "d".spec_bytes()) && is_float_literal(rest)) && !(eq_ignore_case(kw, "tr".spec_bytes())
            && is_float_literal(rest)) ==> mtl_apply(m, kw, rest).opacity == m.opacity,
        mtl_apply(m, kw, rest).name == m.name,
{
    if eq_ignore_case(kw, "tr".spec_bytes()) {
        lemma_tr_not_k(kw);
    }
    reveal_strlit("d");
    vstd::string::is_ascii_spec_bytes("d");
    reveal_strlit("tr");
    vstd::string::is_ascii_spec_bytes("tr");
    reveal_strlit("ka");
    vstd::string::is_ascii_spec_bytes("ka");
    reveal_strlit("kd");
    vstd::string::is_ascii_spec_bytes("kd");
    reveal_strlit("ks");
    vstd::string::is_ascii_spec_bytes("ks");
    reveal_strlit("ke");
    vstd::string::is_ascii_spec_bytes("ke");
}

/// In a material file, a line `d <number>` (any case, any spacing) sets the
/// dissolve of the material being read to that number, and `Tr <number>`
/// its transparency; before the first `newmtl` such lines are ignored.
pub proof fn lemma_opacity_line(st: MtlState, line: Seq<u8>)
    requires
        statement(line) is Some,
    ensures
        ({
            let (kw, rest) = statement(line).unwrap();
            let after = mtl_step(st, line);
            &&& st.cur is Some && eq_ignore_case(kw, "d".spec_bytes()) && is_float_literal(rest) ==> after.cur
                == Some(MtlView { opacity: Some(OpacityView::Dissolve(rest)), ..st.cur.unwrap() })
            &&& st.cur is Some && eq_ignore_case(kw, "tr".spec_bytes()) && is_float_literal(rest) ==> after.cur
                == Some(MtlView { opacity: Some(OpacityView::Transparency(rest)), ..st.cur.unwrap() })
            &&& st.cur is None && !eq_ignore_case(kw, "newmtl".spec_bytes()) ==> after == st
        }),
{
    let (kw, rest) = statement(line).unwrap();
    if eq_ignore_case(kw, "tr".spec_bytes()) {
        lemma_tr_not_k(kw);
    }
    reveal_strlit("d");
    vstd::string::is_ascii_spec_bytes("d");
    reveal_strlit("tr");
    vstd::string::is_ascii_spec_bytes("tr");
    reveal_strlit("newmtl");
    vstd::string::is_ascii_spec_bytes("newmtl");
    reveal_strlit("ka");
    vstd::string::is_ascii_spec_bytes("ka");
    reveal_strlit("kd");
    vstd::string::is_ascii_spec_bytes("kd");
    reveal_strlit("ks");
    vstd::string::is_ascii_spec_bytes("ks");
    reveal_strlit("ke");
    vstd::string::is_ascii_spec_bytes("ke");
}

proof fn lemma_differ_at(kw: Seq<u8>, a: Seq<u8>, b: Seq<u8>, i: int)
    requires
        eq_ignore_case(kw, a),
        0 <= i < a.len(),
        i < b.len(),
        crate::text::lower(a[i]) != crate::text::lower(b[i]),
    ensures
        !eq_ignore_case(kw, b),
{
    assert(crate::text::lower(kw[i]) == crate::text::lower(a[i]));
}

/// `Ka`, `Kd`, `Ks` and `Ke` with three numbers set the ambient, diffuse,
/// specular and emissive colour respectively, each to those numbers, and
/// leave the other colours and the opacity as they were.
pub proof fn lemma_colour_statements(m: MtlView, kw: Seq<u8>, rest: Seq<u8>)
    requires
        vec3_of(rest) is Some,
    ensures
        eq_ignore_case(kw, "ka".spec_bytes()) ==> {
            let r = mtl_apply(m, kw, rest);
            r.ka == vec3_of(rest) && r.kd == m.kd && r.ks == m.ks && r.ke == m.ke && r.opacity == m.opacity
        },
        eq_ignore_case(kw, "kd".spec_bytes()) ==> {
            let r = mtl_apply(m, kw, rest);
            r.kd == vec3_of(rest) && r.ka == m.ka && r.ks == m.ks && r.ke == m.ke && r.opacity == m.opacity
        },
        eq_ignore_case(kw, "ks".spec_bytes()) ==> {
            let r = mtl_apply(m, kw, rest);
            r.ks == vec3_of(rest) && r.ka == m.ka && r.kd == m.kd && r.ke == m.ke && r.opacity == m.opacity
        },
        eq_ignore_case(kw, "ke".spec_bytes()) ==> {
            let r = mtl_apply(m, kw, rest);
            r.ke == vec3_of(rest) && r.ka == m.ka && r.kd == m.kd && r.ks == m.ks && r.opacity == m.opacity
        },
{
    reveal_strlit("ka");
    vstd::string::is_ascii_spec_bytes("ka");
    reveal_strlit("kd");
    vstd::string::is_ascii_spec_bytes("kd");
    reveal_strlit("ks");
    vstd::string::is_ascii_spec_bytes("ks");
    reveal_strlit("ke");
    vstd::string::is_ascii_spec_bytes("ke");
    let (a, d, sp, e) = ("ka".spec_bytes(), "kd".spec_bytes(), "ks".spec_bytes(), "ke".spec_bytes());
    if eq_ignore_case(kw, d) {
        lemma_differ_at(kw, d, a, 1);
    }
    if eq_ignore_case(kw, sp) {
        lemma_differ_at(kw, sp, a, 1);
        lemma_differ_at(kw, sp, d, 1);
    }
    if eq_ignore_case(kw, e) {
        lemma_differ_at(kw, e, a, 1);
        lemma_differ_at(kw, e, d, 1);
        lemma_differ_at(kw, e, sp, 1);
    }
}

} // verus!
