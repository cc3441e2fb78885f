//! glTF 2.0: the GLB container, required extensions, and accessor reads
//! with every index and offset taken from the file checked first.
//!
//! The JSON document itself is parsed by the caller into the plain model of
//! this module ([`GltfRoot`]); accessor components are read here as raw
//! little-endian words, and their conversion to `f32` is left to the caller.

use vstd::prelude::*;
use base64::Engine;
use vstd::string::StringSliceAdditionalSpecFns;
use crate::bytes::{le16, read_u16_le, le32, le32_bytes, push_bytes, push_repeat, push_u32_le, read_u32_le, lemma_le32_roundtrip};
use crate::text::{begins_with, copy_range, find_bytes, find_from, lemma_find_from_some, starts_with};

verus! {

/// `"glTF"` read little-endian.
pub const GLB_MAGIC: u32 = 0x46546C67;

/// Chunk type `"JSON"`.
pub const CHUNK_JSON: u32 = 0x4E4F534A;

/// Chunk type `"BIN\0"`.
pub const CHUNK_BIN: u32 = 0x004E4942;

/// Errors of the glTF readers.
#[derive(Debug, Clone)]
pub enum GltfError {
    /// Fewer than the 12 bytes of a GLB header.
    GlbTooShort,
    /// The magic word is not `glTF`.
    GlbBadMagic,
    /// A container version other than 2.
    GlbBadVersion { version: u32 },
    /// A chunk's end does not fit in `usize`.
    GlbChunkOverflow,
    /// A chunk declares more bytes than remain after its header.
    GlbChunkBeyondEnd { start: usize, len: u32, remaining: usize },
    /// No chunk of type JSON.
    GlbMissingJson,
    /// `extensionsRequired` names extensions this reader cannot load.
    UnsupportedExtensions { names: Vec<Vec<u8>> },
    /// An accessor index past the end of `accessors`.
    AccessorOutOfRange { index: usize },
    /// `count * components * component size` does not fit in `usize`.
    AccessorByteLengthOverflow,
    /// An accessor declares more bytes than the safety limit.
    AccessorTooLarge { index: usize, bytes: usize },
    /// An accessor without a bufferView where one is needed.
    AccessorMissingBufferView,
    /// An accessor names a bufferView past the end of `bufferViews`.
    BufferViewOutOfRange { view: usize, count: usize },
    /// A bufferView names a buffer past the end of the buffers.
    BufferOutOfRange { view: usize, buffer: usize, count: usize },
    /// bufferView offset plus accessor offset does not fit in `usize`.
    AccessorOffsetOverflow,
    /// bufferView offset plus length does not fit in `usize`.
    ViewLengthOverflow,
    /// An accessor starts past the end of its buffer.
    AccessorStartBeyondBuffer { start: usize, buffer: usize, len: usize },
    /// An accessor starts past the end of its bufferView.
    AccessorStartBeyondView { start: usize, view: usize, end: usize },
    /// `(count - 1) * stride` does not fit in `usize`.
    StrideOverflow,
    /// The last element's end does not fit in `usize`.
    RangeOverflow,
    /// The elements need more bytes than the bufferView provides.
    AccessorNeedsMore { index: usize, need: usize, available: usize },
    /// A sparse bufferView index past the end of `bufferViews`.
    SparseViewOutOfRange { part: SparsePart, view: usize, count: usize },
    /// A sparse bufferView names a buffer past the end of the buffers.
    SparseBufferOutOfRange { part: SparsePart, view: usize, buffer: usize, count: usize },
    /// A sparse offset does not fit in `usize`.
    SparseOffsetOverflow,
    /// A sparse part starts past the end of what its view provides.
    SparseStartBeyond { part: SparsePart, start: usize, end: usize },
    /// The sparse values' byte count does not fit in `usize`.
    SparseValueOverflow,
    /// The sparse values need more bytes than their view provides.
    SparseValuesTooShort { need: usize, available: usize },
    /// A primitive mode other than triangles, strip or fan.
    UnsupportedMode { mode: u32 },
    /// An index value that names no vertex.
    IndexOutOfRange { index: u32, vertex_count: usize },
    /// A buffer's data URI has no comma before its payload.
    DataUriMissingComma,
    /// A buffer's data URI payload is not valid base64.
    Base64Invalid,
    /// A buffer with neither a URI nor a binary chunk to stand for it.
    BufferMissing { index: usize },
}

/// Which part of a sparse accessor a bufferView reference belongs to.
#[derive(Debug, Clone, Copy, PartialEq, Eq, Structural)]
pub enum SparsePart {
    Indices,
    Values,
}

// ── GLB container ────────────────────────────────────────────────────────────

/// The byte ranges of the last JSON chunk and of the last BIN chunk at or
/// after offset `off`, or the error of the first chunk that does not fit.
pub open spec fn glb_chunks(d: Seq<u8>, off: int) -> Result<(Option<(int, int)>, Option<(int, int)>), GltfError>
    decreases d.len() - off,
{
    if off < 0 || off + 8 > d.len() {
        Ok((None, None))
    } else {
        let len = le32(d, off);
        let kind = le32(d, off + 4);
        let start = off + 8;
        let end = start + len;
        if end > usize::MAX {
            Err(GltfError::GlbChunkOverflow)
        } else if end > d.len() {
            Err(
                GltfError::GlbChunkBeyondEnd {
                    start: start as usize,
                    len: len as u32,
                    remaining: (d.len() - start) as usize,
                },
            )
        } else {
            match glb_chunks(d, end) {
                Err(e) => Err(e),
                Ok((j, b)) => Ok(
                    (
                        if j is Some {
                            j
                        } else if kind == CHUNK_JSON {
                            Some((start, end))
                        } else {
                            None
                        },
                        if b is Some {
                            b
                        } else if kind == CHUNK_BIN {
                            Some((start, end))
                        } else {
                            None
                        },
                    ),
                ),
            }
        }
    }
}

/// What `parse_glb` returns: the JSON chunk and the BIN chunk (empty when
/// there is none).
pub open spec fn parse_glb_spec(d: Seq<u8>) -> Result<(Seq<u8>, Seq<u8>), GltfError> {
    if d.len() < 12 {
        Err(GltfError::GlbTooShort)
    } else if le32(d, 0) != GLB_MAGIC {
        Err(GltfError::GlbBadMagic)
    } else if le32(d, 4) != 2 {
        Err(GltfError::GlbBadVersion { version: le32(d, 4) as u32 })
    } else {
        match glb_chunks(d, 12) {
            Err(e) => Err(e),
            Ok((None, _)) => Err(GltfError::GlbMissingJson),
            Ok((Some((js, je)), b)) => Ok(
                (
                    d.subrange(js, je),
                    match b {
                        Some((bs, be)) => d.subrange(bs, be),
                        None => seq![],
                    },
                ),
            ),
        }
    }
}

/// Splits a GLB container into its JSON chunk and its BIN chunk. Where a
/// kind of chunk occurs more than once the last one is taken.
pub fn parse_glb(data: &[u8]) -> (r: Result<(Vec<u8>, Vec<u8>), GltfError>)
    ensures
        match (r, parse_glb_spec(data@)) {
            (Ok((j, b)), Ok((sj, sb))) => j@ == sj && b@ == sb,
            (Err(e), Err(se)) => e == se,
            _ => false,
        },
{
    let len = data.len();
    if len < 12 {
        return Err(GltfError::GlbTooShort);
    }
    let magic = read_u32_le(data, 0);
    let version = read_u32_le(data, 4);
    if magic != GLB_MAGIC {
        return Err(GltfError::GlbBadMagic);
    }
    if version != 2 {
        return Err(GltfError::GlbBadVersion { version });
    }
    let mut offset: usize = 12;
    let mut json: Option<(usize, usize)> = None;
    let mut bin: Option<(usize, usize)> = None;
    // The chunks before `offset` have been read; `json` and `bin` hold the
    // last of each kind among them.
    while len - offset >= 8
        invariant
            len == data@.len(),
            12 <= offset <= len,
            le32(data@, 0) == GLB_MAGIC,
            le32(data@, 4) == 2,
            glb_chunks(data@, 12) == match glb_chunks(data@, offset as int) {
                Err(e) => Err(e),
                Ok((j, b)) => Ok::<(Option<(int, int)>, Option<(int, int)>), GltfError>(
                    (
                        if j is Some {
                            j
                        } else {
                            match json {
                                Some((s, e)) => Some((s as int, e as int)),
                                None => None,
                            }
                        },
                        if b is Some {
                            b
                        } else {
                            match bin {
                                Some((s, e)) => Some((s as int, e as int)),
                                None => None,
                            }
                        },
                    ),
                ),
            },
            json matches Some((s, e)) ==> s <= e <= len,
            bin matches Some((s, e)) ==> s <= e <= len,
        decreases len - offset,
    {
        let chunk_len = read_u32_le(data, offset);
        let chunk_type = read_u32_le(data, offset + 4);
        let chunk_start = offset + 8;
        let chunk_end = match chunk_start.checked_add(chunk_len as usize) {
            Some(e) => e,
            None => {
                return Err(GltfError::GlbChunkOverflow);
            },
        };
        if chunk_end > len {
            return Err(GltfError::GlbChunkBeyondEnd { start: chunk_start, len: chunk_len, remaining: len - chunk_start });
        }
        if chunk_type == CHUNK_JSON {
            json = Some((chunk_start, chunk_end));
        } else if chunk_type == CHUNK_BIN {
            bin = Some((chunk_start, chunk_end));
        }
        offset = chunk_end;
    }
    match json {
        None => Err(GltfError::GlbMissingJson),
        Some((js, je)) => {
            let j = vstd::slice::slice_to_vec(vstd::slice::slice_subrange(data, js, je));
            let b = match bin {
                Some((bs, be)) => vstd::slice::slice_to_vec(vstd::slice::slice_subrange(data, bs, be)),
                None => Vec::new(),
            };
            Ok((j, b))
        },
    }
}

/// Bytes needed to bring `n` to a multiple of four.
pub open spec fn pad_len(n: nat) -> nat {
    ((4 - n % 4) % 4) as nat
}

/// Length of the JSON chunk: the JSON padded to a multiple of four.
pub open spec fn json_chunk_len(json: Seq<u8>) -> nat {
    json.len() + pad_len(json.len())
}

/// Length of the BIN chunk: none for an empty buffer, else the buffer
/// padded to a multiple of four.
pub open spec fn bin_chunk_len(bin: Seq<u8>) -> nat {
    if bin.len() == 0 {
        0
    } else {
        bin.len() + pad_len(bin.len())
    }
}

pub open spec fn glb_total(json: Seq<u8>, bin: Seq<u8>) -> nat {
    20 + json_chunk_len(json) + if bin_chunk_len(bin) > 0 {
        8 + bin_chunk_len(bin)
    } else {
        0
    }
}

/// The JSON padded with spaces.
pub open spec fn padded_json(json: Seq<u8>) -> Seq<u8> {
    json + Seq::new(pad_len(json.len()), |i: int| 0x20u8)
}

/// The buffer padded with zeros; empty stays empty.
pub open spec fn padded_bin(bin: Seq<u8>) -> Seq<u8> {
    if bin.len() == 0 {
        seq![]
    } else {
        bin + Seq::new(pad_len(bin.len()), |i: int| 0u8)
    }
}

/// A GLB container: header (magic, version 2, total length), the JSON chunk,
/// and a BIN chunk when the buffer is not empty. Lengths are written as
/// `u32` (taken modulo 2^32).
pub open spec fn write_glb_spec(json: Seq<u8>, bin: Seq<u8>) -> Seq<u8> {
    le32_bytes(GLB_MAGIC as nat) + le32_bytes(2) + le32_bytes(glb_total(json, bin) % 0x1_0000_0000)
        + le32_bytes(json_chunk_len(json) % 0x1_0000_0000) + le32_bytes(CHUNK_JSON as nat) + padded_json(json)
        + if bin.len() == 0 {
        seq![]
    } else {
        le32_bytes(bin_chunk_len(bin) % 0x1_0000_0000) + le32_bytes(CHUNK_BIN as nat) + padded_bin(bin)
    }
}

/// Frames a JSON document and a binary buffer as a GLB container.
pub fn write_glb(json: &[u8], bin: &[u8]) -> (r: Vec<u8>)
    requires
        json@.len() + bin@.len() + 40 <= usize::MAX,
    ensures
        r@ == write_glb_spec(json@, bin@),
{
    let json_pad = (4 - json.len() % 4) % 4;
    let json_len = json.len() + json_pad;
    let bin_pad = (4 - bin.len() % 4) % 4;
    let bin_len = if bin.len() == 0 { 0 } else { bin.len() + bin_pad };
    let total: usize = 12 + 8 + json_len + if bin_len > 0 { 8 + bin_len } else { 0 };
    let mut out: Vec<u8> = Vec::new();
    push_u32_le(&mut out, GLB_MAGIC);
    push_u32_le(&mut out, 2);
    push_u32_le(&mut out, ((total as u64) % 0x1_0000_0000) as u32);
    push_u32_le(&mut out, ((json_len as u64) % 0x1_0000_0000) as u32);
    push_u32_le(&mut out, CHUNK_JSON);
    push_bytes(&mut out, json);
    push_repeat(&mut out, 0x20, json_pad);
    if bin_len > 0 {
        push_u32_le(&mut out, ((bin_len as u64) % 0x1_0000_0000) as u32);
        push_u32_le(&mut out, CHUNK_BIN);
        push_bytes(&mut out, bin);
        push_repeat(&mut out, 0, bin_pad);
    }
    assert(out@ =~= write_glb_spec(json@, bin@));
    out
}

proof fn lemma_word_in(h: Seq<u8>, rest: Seq<u8>, p: int, v: nat)
    requires
        v < 0x1_0000_0000,
        0 <= p,
        p + 4 <= h.len(),
        h.subrange(p, p + 4) == le32_bytes(v),
    ensures
        le32(h + rest, p) == v,
{
    let d = h + rest;
    assert(d.subrange(p, p + 4) =~= h.subrange(p, p + 4));
    lemma_le32_roundtrip(v, d, p);
}

/// The 20 bytes of header and JSON chunk header.
pub open spec fn glb_head(json: Seq<u8>, bin: Seq<u8>) -> Seq<u8> {
    le32_bytes(GLB_MAGIC as nat) + le32_bytes(2) + le32_bytes(glb_total(json, bin) % 0x1_0000_0000)
        + le32_bytes(json_chunk_len(json) % 0x1_0000_0000) + le32_bytes(CHUNK_JSON as nat)
}

pub open spec fn glb_tail(bin: Seq<u8>) -> Seq<u8> {
    if bin.len() == 0 {
        seq![]
    } else {
        le32_bytes(bin_chunk_len(bin) % 0x1_0000_0000) + le32_bytes(CHUNK_BIN as nat) + padded_bin(bin)
    }
}

proof fn lemma_glb_head(json: Seq<u8>, bin: Seq<u8>, rest: Seq<u8>)
    requires
        glb_total(json, bin) < 0x1_0000_0000,
    ensures
        glb_head(json, bin).len() == 20,
        le32(glb_head(json, bin) + rest, 0) == GLB_MAGIC,
        le32(glb_head(json, bin) + rest, 4) == 2,
        le32(glb_head(json, bin) + rest, 12) == json_chunk_len(json),
        le32(glb_head(json, bin) + rest, 16) == CHUNK_JSON,
{
    let h = glb_head(json, bin);
    assert(h.subrange(0, 4) =~= le32_bytes(GLB_MAGIC as nat));
    assert(h.subrange(4, 8) =~= le32_bytes(2));
    assert(h.subrange(12, 16) =~= le32_bytes(json_chunk_len(json) % 0x1_0000_0000));
    assert(h.subrange(16, 20) =~= le32_bytes(CHUNK_JSON as nat));
    lemma_word_in(h, rest, 0, GLB_MAGIC as nat);
    lemma_word_in(h, rest, 4, 2);
    lemma_word_in(h, rest, 12, json_chunk_len(json));
    lemma_word_in(h, rest, 16, CHUNK_JSON as nat);
}

proof fn lemma_glb_tail(front: Seq<u8>, bin: Seq<u8>)
    requires
        bin.len() > 0,
        front.len() + 8 + bin_chunk_len(bin) < 0x1_0000_0000,
    ensures
        glb_tail(bin).len() == 8 + bin_chunk_len(bin),
        le32(front + glb_tail(bin), front.len() as int) == bin_chunk_len(bin),
        le32(front + glb_tail(bin), front.len() + 4int) == CHUNK_BIN,
        (front + glb_tail(bin)).subrange(front.len() + 8int, front.len() + 8int + bin_chunk_len(bin)) == padded_bin(bin),
{
    let t = glb_tail(bin);
    let d = front + t;
    let f = front.len() as int;
    assert(d.subrange(f, f + 4) =~= le32_bytes(bin_chunk_len(bin) % 0x1_0000_0000));
    assert(d.subrange(f + 4, f + 8) =~= le32_bytes(CHUNK_BIN as nat));
    lemma_le32_roundtrip(bin_chunk_len(bin), d, f);
    lemma_le32_roundtrip(CHUNK_BIN as nat, d, f + 4);
    assert(d.subrange(f + 8, f + 8 + bin_chunk_len(bin)) =~= padded_bin(bin));
}

/// Round trip: a container written by `write_glb` splits back into the
/// padded JSON and the padded buffer (an empty buffer gives no BIN chunk and
/// reads back empty). Stated where the total length fits the `u32` header.
pub proof fn lemma_glb_round_trip(json: Seq<u8>, bin: Seq<u8>)
    requires
        glb_total(json, bin) < 0x1_0000_0000,
    ensures
        parse_glb_spec(write_glb_spec(json, bin)) == Ok::<(Seq<u8>, Seq<u8>), GltfError>(
            (padded_json(json), padded_bin(bin)),
        ),
{
    let d = write_glb_spec(json, bin);
    let jl = json_chunk_len(json);
    let bl = bin_chunk_len(bin);
    let h = glb_head(json, bin);
    let pj = padded_json(json);
    let t = glb_tail(bin);
    assert(d == h + pj + t);
    assert(d == h + (pj + t));
    lemma_glb_head(json, bin, pj + t);
    assert(pj.len() == jl);
    let e1 = 20 + jl as int;
    assert(d.subrange(20, e1) =~= pj);
    if bin.len() == 0 {
        assert(d.len() == e1);
        assert(glb_chunks(d, e1) == Ok::<(Option<(int, int)>, Option<(int, int)>), GltfError>((None, None)));
        assert(glb_chunks(d, 12) == Ok::<(Option<(int, int)>, Option<(int, int)>), GltfError>(
            (Some((20, e1)), None),
        ));
    } else {
        lemma_glb_tail(h + pj, bin);
        let e2 = e1 + 8 + bl;
        assert(d.len() == e2);
        assert(glb_chunks(d, e2) == Ok::<(Option<(int, int)>, Option<(int, int)>), GltfError>((None, None)));
        assert(glb_chunks(d, e1) == Ok::<(Option<(int, int)>, Option<(int, int)>), GltfError>(
            (None, Some((e1 + 8, e2))),
        ));
        assert(glb_chunks(d, 12) == Ok::<(Option<(int, int)>, Option<(int, int)>), GltfError>(
            (Some((20, e1)), Some((e1 + 8, e2))),
        ));
    }
}

// ── Document model ───────────────────────────────────────────────────────────

/// A `bufferViews` entry.
#[derive(Debug, Clone, Copy, PartialEq, Eq, Structural, Default)]
pub struct GltfBufferView {
    pub buffer: usize,
    pub byte_offset: usize,
    pub byte_length: usize,
    pub byte_stride: Option<usize>,
    pub target: Option<u32>,
}

/// The numbers of an accessor's `sparse` object, each as the JSON value's
/// `as_u64()` (absent or not an unsigned integer: `None`).
#[derive(Debug, Clone, Copy, PartialEq, Eq, Structural, Default)]
pub struct GltfSparse {
    pub count: Option<u64>,
    pub indices_buffer_view: Option<u64>,
    pub indices_byte_offset: Option<u64>,
    pub indices_component_type: Option<u64>,
    pub values_buffer_view: Option<u64>,
    pub values_byte_offset: Option<u64>,
}

/// An `accessors` entry.
#[derive(Debug, Clone)]
pub struct GltfAccessor {
    pub buffer_view: Option<usize>,
    pub byte_offset: usize,
    pub component_type: u32,
    pub count: usize,
    /// `SCALAR`, `VEC2` ... `MAT4`.
    pub type_: String,
    pub normalized: bool,
    pub sparse: Option<GltfSparse>,
}

pub struct GltfAccessorView {
    pub buffer_view: Option<usize>,
    pub byte_offset: usize,
    pub component_type: u32,
    pub count: usize,
    pub type_: Seq<char>,
    pub normalized: bool,
    pub sparse: Option<GltfSparse>,
}

impl View for GltfAccessor {
    type V = GltfAccessorView;

    open spec fn view(&self) -> GltfAccessorView {
        GltfAccessorView {
            buffer_view: self.buffer_view,
            byte_offset: self.byte_offset,
            component_type: self.component_type,
            count: self.count,
            type_: self.type_@,
            normalized: self.normalized,
            sparse: self.sparse,
        }
    }
}

/// The parts of a glTF document that the buffer logic reads and writes.
#[derive(Debug, Clone)]
pub struct GltfRoot {
    pub buffer_views: Vec<GltfBufferView>,
    pub accessors: Vec<GltfAccessor>,
    pub extensions_required: Vec<String>,
}

pub struct GltfRootView {
    pub buffer_views: Seq<GltfBufferView>,
    pub accessors: Seq<GltfAccessorView>,
    pub extensions_required: Seq<Seq<char>>,
}

impl View for GltfRoot {
    type V = GltfRootView;

    open spec fn view(&self) -> GltfRootView {
        GltfRootView {
            buffer_views: self.buffer_views@,
            accessors: self.accessors@.map_values(|a: GltfAccessor| a@),
            extensions_required: self.extensions_required@.map_values(|e: String| e@),
        }
    }
}

/// The contents of a list of buffers.
pub open spec fn bufs_view(b: Seq<Vec<u8>>) -> Seq<Seq<u8>> {
    b.map_values(|v: Vec<u8>| v@)
}

/// Components per element of an accessor type; 1 for a name not listed.
pub open spec fn num_components_spec(t: Seq<char>) -> usize {
    if t == "SCALAR"@ {
        1
    } else if t == "VEC2"@ {
        2
    } else if t == "VEC3"@ {
        3
    } else if t == "VEC4"@ {
        4
    } else if t == "MAT2"@ {
        4
    } else if t == "MAT3"@ {
        9
    } else if t == "MAT4"@ {
        16
    } else {
        1
    }
}

/// Bytes per component of a component type; 4 for a code not listed.
pub open spec fn component_size_spec(ct: u32) -> usize {
    if ct == 5120 || ct == 5121 {
        1
    } else if ct == 5122 || ct == 5123 {
        2
    } else {
        4
    }
}

pub fn num_components(t: &String) -> (r: usize)
    ensures
        r == num_components_spec(t@),
        1 <= r <= 16,
{
    if *t == "SCALAR".to_owned() {
        1
    } else if *t == "VEC2".to_owned() {
        2
    } else if *t == "VEC3".to_owned() {
        3
    } else if *t == "VEC4".to_owned() {
        4
    } else if *t == "MAT2".to_owned() {
        4
    } else if *t == "MAT3".to_owned() {
        9
    } else if *t == "MAT4".to_owned() {
        16
    } else {
        1
    }
}

pub fn component_size(ct: u32) -> (r: usize)
    ensures
        r == component_size_spec(ct),
        1 <= r <= 4,
{
    if ct == 5120 || ct == 5121 {
        1
    } else if ct == 5122 || ct == 5123 {
        2
    } else {
        4
    }
}

// ── Accessor validation ──────────────────────────────────────────────────────

/// Largest byte footprint an accessor may declare.
pub const MAX_ACCESSOR_BYTES: usize = 0x4000_0000;

/// What `validate_accessor` decides for accessor `i`.
pub open spec fn validate_accessor_spec(root: GltfRootView, i: usize) -> Result<GltfAccessorView, GltfError> {
    if i >= root.accessors.len() {
        Err(GltfError::AccessorOutOfRange { index: i })
    } else {
        let acc = root.accessors[i as int];
        let bytes = acc.count * num_components_spec(acc.type_) * component_size_spec(acc.component_type);
        if bytes > usize::MAX {
            Err(GltfError::AccessorByteLengthOverflow)
        } else if bytes > MAX_ACCESSOR_BYTES {
            Err(GltfError::AccessorTooLarge { index: i, bytes: bytes as usize })
        } else {
            Ok(acc)
        }
    }
}

/// Checks that accessor `acc_idx` exists and that its declared byte size
/// stays within the safety limit, before anything is allocated for it.
pub fn validate_accessor(root: &GltfRoot, acc_idx: usize) -> (r: Result<&GltfAccessor, GltfError>)
    ensures
        match (r, validate_accessor_spec(root@, acc_idx)) {
            (Ok(a), Ok(sa)) => a@ == sa,
            (Err(e), Err(se)) => e == se,
            _ => false,
        },
{
    if acc_idx >= root.accessors.len() {
        return Err(GltfError::AccessorOutOfRange { index: acc_idx });
    }
    let acc = &root.accessors[acc_idx];
    let n_comps = num_components(&acc.type_);
    let comp_sz = component_size(acc.component_type);
    let bytes = match acc.count.checked_mul(n_comps) {
        Some(v) => match v.checked_mul(comp_sz) {
            Some(b) => b,
            None => {
                return Err(GltfError::AccessorByteLengthOverflow);
            },
        },
        None => {
            proof {
                assert(acc.count * n_comps * comp_sz >= acc.count * n_comps) by (nonlinear_arith)
                    requires comp_sz >= 1, acc.count * n_comps >= 0;
            }
            return Err(GltfError::AccessorByteLengthOverflow);
        },
    };
    if bytes > MAX_ACCESSOR_BYTES {
        return Err(GltfError::AccessorTooLarge { index: acc_idx, bytes });
    }
    Ok(acc)
}

/// What `check_stride_fits` decides.
pub open spec fn stride_fits_spec(acc_idx: usize, count: usize, stride: usize, comp_bytes: usize, slice_len: usize) -> Result<(), GltfError> {
    if count == 0 {
        Ok(())
    } else {
        let last = (count - 1) * stride;
        if last > usize::MAX {
            Err(GltfError::StrideOverflow)
        } else if last + comp_bytes > usize::MAX {
            Err(GltfError::RangeOverflow)
        } else if last + comp_bytes > slice_len {
            Err(GltfError::AccessorNeedsMore { index: acc_idx, need: (last + comp_bytes) as usize, available: slice_len })
        } else {
            Ok(())
        }
    }
}

/// Checks that `count` elements `stride` apart, the last one `comp_bytes`
/// long, fit in `slice_len` bytes.
pub fn check_stride_fits(acc_idx: usize, count: usize, stride: usize, comp_bytes: usize, slice_len: usize) -> (r: Result<(), GltfError>)
    ensures
        r == stride_fits_spec(acc_idx, count, stride, comp_bytes, slice_len),
{
    if count == 0 {
        return Ok(());
    }
    let last = match (count - 1).checked_mul(stride) {
        Some(v) => v,
        None => {
            return Err(GltfError::StrideOverflow);
        },
    };
    let need = match last.checked_add(comp_bytes) {
        Some(v) => v,
        None => {
            return Err(GltfError::RangeOverflow);
        },
    };
    if need > slice_len {
        return Err(GltfError::AccessorNeedsMore { index: acc_idx, need, available: slice_len });
    }
    Ok(())
}

/// Where an accessor's bytes lie: buffer, first byte, end, and stride.
#[derive(Debug, Clone, Copy, PartialEq, Eq, Structural)]
pub struct AccessorSlice {
    pub buffer: usize,
    pub start: usize,
    pub end: usize,
    pub stride: usize,
}

/// What `get_slice` decides for an accessor: the bytes from its start to the
/// end of its bufferView (cut at the end of the buffer), with the view's
/// stride or, without one, the element size.
pub open spec fn get_slice_spec(root: GltfRootView, bufs: Seq<Seq<u8>>, acc: GltfAccessorView) -> Result<AccessorSlice, GltfError> {
    match acc.buffer_view {
        None => Err(GltfError::AccessorMissingBufferView),
        Some(bvi) => if bvi >= root.buffer_views.len() {
            Err(GltfError::BufferViewOutOfRange { view: bvi, count: root.buffer_views.len() as usize })
        } else {
            let bv = root.buffer_views[bvi as int];
            if bv.buffer >= bufs.len() {
                Err(GltfError::BufferOutOfRange { view: bvi, buffer: bv.buffer, count: bufs.len() as usize })
            } else {
                let buf_len = bufs[bv.buffer as int].len();
                let start = bv.byte_offset + acc.byte_offset;
                let stride = match bv.byte_stride {
                    Some(s) => s,
                    None => (num_components_spec(acc.type_) * component_size_spec(acc.component_type)) as usize,
                };
                let view_end = bv.byte_offset + bv.byte_length;
                if start > usize::MAX {
                    Err(GltfError::AccessorOffsetOverflow)
                } else if view_end > usize::MAX {
                    Err(GltfError::ViewLengthOverflow)
                } else if start > buf_len {
                    Err(GltfError::AccessorStartBeyondBuffer { start: start as usize, buffer: bv.buffer, len: buf_len as usize })
                } else if start > view_end {
                    Err(GltfError::AccessorStartBeyondView { start: start as usize, view: bvi, end: view_end as usize })
                } else {
                    Ok(
                        AccessorSlice {
                            buffer: bv.buffer,
                            start: start as usize,
                            end: (if view_end < buf_len { view_end } else { buf_len as int }) as usize,
                            stride,
                        },
                    )
                }
            }
        },
    }
}

/// Finds the bytes behind an accessor, checking each index and offset read
/// from the file.
pub fn get_slice(root: &GltfRoot, buffers: &[Vec<u8>], acc: &GltfAccessor) -> (r: Result<AccessorSlice, GltfError>)
    ensures
        r == get_slice_spec(root@, bufs_view(buffers@), acc@),
        r matches Ok(s) ==> s.buffer < buffers@.len() && s.start <= s.end <= buffers@[s.buffer as int]@.len(),
{
    let bv_idx = match acc.buffer_view {
        Some(i) => i,
        None => {
            return Err(GltfError::AccessorMissingBufferView);
        },
    };
    if bv_idx >= root.buffer_views.len() {
        return Err(GltfError::BufferViewOutOfRange { view: bv_idx, count: root.buffer_views.len() });
    }
    let bv = root.buffer_views[bv_idx];
    if bv.buffer >= buffers.len() {
        return Err(GltfError::BufferOutOfRange { view: bv_idx, buffer: bv.buffer, count: buffers.len() });
    }
    let buf_len = buffers[bv.buffer].len();
    let start = match bv.byte_offset.checked_add(acc.byte_offset) {
        Some(s) => s,
        None => {
            return Err(GltfError::AccessorOffsetOverflow);
        },
    };
    let n_comps = num_components(&acc.type_);
    let comp_sz = component_size(acc.component_type);
    let stride = match bv.byte_stride {
        Some(s) => s,
        None => n_comps * comp_sz,
    };
    let view_end = match bv.byte_offset.checked_add(bv.byte_length) {
        Some(e) => e,
        None => {
            return Err(GltfError::ViewLengthOverflow);
        },
    };
    if start > buf_len {
        return Err(GltfError::AccessorStartBeyondBuffer { start, buffer: bv.buffer, len: buf_len });
    }
    if start > view_end {
        return Err(GltfError::AccessorStartBeyondView { start, view: bv_idx, end: view_end });
    }
    let end = if view_end < buf_len { view_end } else { buf_len };
    Ok(AccessorSlice { buffer: bv.buffer, start, end, stride })
}

/// What `sparse_slice` decides: the bytes from the given offset in a view to
/// the view's end (the buffer's end when the view's end does not fit in
/// `usize`, and never past the buffer's end).
pub open spec fn sparse_slice_spec(root: GltfRootView, bufs: Seq<Seq<u8>>, part: SparsePart, bv_i: usize, byte_off: usize) -> Result<(usize, usize, usize), GltfError> {
    if bv_i >= root.buffer_views.len() {
        Err(GltfError::SparseViewOutOfRange { part, view: bv_i, count: root.buffer_views.len() as usize })
    } else {
        let bv = root.buffer_views[bv_i as int];
        if bv.buffer >= bufs.len() {
            Err(GltfError::SparseBufferOutOfRange { part, view: bv_i, buffer: bv.buffer, count: bufs.len() as usize })
        } else {
            let buf_len = bufs[bv.buffer as int].len();
            let start = bv.byte_offset + byte_off;
            let view_end = bv.byte_offset + bv.byte_length;
            let end0 = if view_end > usize::MAX { buf_len as int } else { view_end };
            let end = if end0 < buf_len { end0 } else { buf_len as int };
            if start > usize::MAX {
                Err(GltfError::SparseOffsetOverflow)
            } else if start > end {
                Err(GltfError::SparseStartBeyond { part, start: start as usize, end: end as usize })
            } else {
                Ok((bv.buffer, start as usize, end as usize))
            }
        }
    }
}

/// Finds the bytes a sparse accessor's indices or values refer to.
pub fn sparse_slice(root: &GltfRoot, buffers: &[Vec<u8>], part: SparsePart, bv_i: usize, byte_off: usize) -> (r: Result<(usize, usize, usize), GltfError>)
    ensures
        r == sparse_slice_spec(root@, bufs_view(buffers@), part, bv_i, byte_off),
        r matches Ok((b, s, e)) ==> b < buffers@.len() && s <= e <= buffers@[b as int]@.len(),
{
    if bv_i >= root.buffer_views.len() {
        return Err(GltfError::SparseViewOutOfRange { part, view: bv_i, count: root.buffer_views.len() });
    }
    let bv = root.buffer_views[bv_i];
    if bv.buffer >= buffers.len() {
        return Err(GltfError::SparseBufferOutOfRange { part, view: bv_i, buffer: bv.buffer, count: buffers.len() });
    }
    let buf_len = buffers[bv.buffer].len();
    let start = match bv.byte_offset.checked_add(byte_off) {
        Some(s) => s,
        None => {
            return Err(GltfError::SparseOffsetOverflow);
        },
    };
    let end0 = match bv.byte_offset.checked_add(bv.byte_length) {
        Some(e) => e,
        None => buf_len,
    };
    let end = if end0 < buf_len { end0 } else { buf_len };
    if start > end {
        return Err(GltfError::SparseStartBeyond { part, start, end });
    }
    Ok((bv.buffer, start, end))
}

// ── Reading components ───────────────────────────────────────────────────────

/// The little-endian word of a component at `off`: one byte for (unsigned)
/// bytes, two for (unsigned) shorts, four for unsigned ints and floats, and
/// 0 for an unknown component type.
pub open spec fn raw_component(s: Seq<u8>, off: int, ct: u32) -> u32 {
    if ct == 5120 || ct == 5121 {
        s[off] as u32
    } else if ct == 5122 || ct == 5123 {
        le16(s, off) as u32
    } else if ct == 5125 || ct == 5126 {
        le32(s, off) as u32
    } else {
        0
    }
}

/// An index or integer value: the component for unsigned byte, short and
/// int, and 0 for any other component type.
pub open spec fn index_value(s: Seq<u8>, off: int, ct: u32) -> u32 {
    if ct == 5121 || ct == 5123 || ct == 5125 {
        raw_component(s, off, ct)
    } else {
        0
    }
}

/// A sparse index: read for unsigned byte, short and int; other component
/// types give no index and the entry is skipped.
pub open spec fn sparse_target(s: Seq<u8>, off: int, ct: u32) -> Option<u32> {
    if ct == 5121 || ct == 5123 || ct == 5125 {
        Some(raw_component(s, off, ct))
    } else {
        None
    }
}

fn read_raw(s: &[u8], off: usize, ct: u32) -> (r: u32)
    requires
        off + component_size_spec(ct) <= s@.len(),
    ensures
        r == raw_component(s@, off as int, ct),
{
    if ct == 5120 || ct == 5121 {
        s[off] as u32
    } else if ct == 5122 || ct == 5123 {
        read_u16_le(s, off) as u32
    } else if ct == 5125 || ct == 5126 {
        read_u32_le(s, off)
    } else {
        0
    }
}

fn read_index(s: &[u8], off: usize, ct: u32) -> (r: u32)
    requires
        off + component_size_spec(ct) <= s@.len(),
    ensures
        r == index_value(s@, off as int, ct),
{
    if ct == 5121 || ct == 5123 || ct == 5125 {
        read_raw(s, off, ct)
    } else {
        0
    }
}

/// The bytes of an accessor slice.
pub open spec fn slice_bytes(bufs: Seq<Seq<u8>>, sl: AccessorSlice) -> Seq<u8> {
    bufs[sl.buffer as int].subrange(sl.start as int, sl.end as int)
}

/// The sparse parameters with the defaults the reader applies: count 0,
/// bufferView 0, offset 0, index type unsigned int.
pub open spec fn sparse_count(sp: GltfSparse) -> usize {
    (match sp.count { Some(v) => v, None => 0 }) as usize
}

pub open spec fn sparse_index_type(sp: GltfSparse) -> u32 {
    (match sp.indices_component_type { Some(v) => v, None => 5125 }) as u32
}

pub open spec fn or_zero(v: Option<u64>) -> usize {
    (match v { Some(x) => x, None => 0 }) as usize
}

/// The values `out` holds after the first `k` sparse entries of a `u32`
/// accessor: each entry with a known index type sets its target, when in
/// range, to its value.
pub open spec fn sparse_u32_fold(ib: Seq<u8>, ict: u32, vb: Seq<u8>, ct: u32, out: Seq<u32>, k: nat) -> Seq<u32>
    decreases k,
{
    if k == 0 {
        out
    } else {
        let prev = sparse_u32_fold(ib, ict, vb, ct, out, (k - 1) as nat);
        match sparse_target(ib, (k - 1) * component_size_spec(ict), ict) {
            None => prev,
            Some(t) => if t < prev.len() {
                prev.update(t as int, index_value(vb, (k - 1) * component_size_spec(ct), ct))
            } else {
                prev
            },
        }
    }
}

/// What `apply_sparse_u32` makes of `out`.
pub open spec fn apply_sparse_u32_spec(root: GltfRootView, bufs: Seq<Seq<u8>>, sp: GltfSparse, ct: u32, out: Seq<u32>) -> Result<Seq<u32>, GltfError> {
    let n = sparse_count(sp);
    if n == 0 {
        Ok(out)
    } else {
        let ict = sparse_index_type(sp);
        let icsz = component_size_spec(ict);
        let vcsz = component_size_spec(ct);
        match sparse_slice_spec(root, bufs, SparsePart::Indices, or_zero(sp.indices_buffer_view), or_zero(sp.indices_byte_offset)) {
            Err(e) => Err(e),
            Ok((ibuf, is, ie)) => match sparse_slice_spec(root, bufs, SparsePart::Values, or_zero(sp.values_buffer_view), or_zero(sp.values_byte_offset)) {
                Err(e) => Err(e),
                Ok((vbuf, vs, ve)) => match stride_fits_spec(0, n, icsz, icsz, (ie - is) as usize) {
                    Err(e) => Err(e),
                    Ok(_) => {
                        let total = n * vcsz;
                        if total > usize::MAX {
                            Err(GltfError::SparseValueOverflow)
                        } else if total > ve - vs {
                            Err(GltfError::SparseValuesTooShort { need: total as usize, available: (ve - vs) as usize })
                        } else {
                            Ok(sparse_u32_fold(bufs[ibuf as int].subrange(is as int, ie as int), ict,
                                bufs[vbuf as int].subrange(vs as int, ve as int), ct, out, n as nat))
                        }
                    },
                },
            },
        }
    }
}

/// Applies a sparse override to the values of a `u32` accessor.
pub fn apply_sparse_u32(root: &GltfRoot, buffers: &[Vec<u8>], sparse: &GltfSparse, component_type: u32, out: &mut Vec<u32>) -> (r: Result<(), GltfError>)
    ensures
        match (r, apply_sparse_u32_spec(root@, bufs_view(buffers@), *sparse, component_type, old(out)@)) {
            (Ok(_), Ok(v)) => final(out)@ == v,
            (Err(e), Err(se)) => e == se,
            _ => false,
        },
{
    let sparse_count = (match sparse.count { Some(v) => v, None => 0 }) as usize;
    if sparse_count == 0 {
        return Ok(());
    }
    let idx_bv_i = (match sparse.indices_buffer_view { Some(v) => v, None => 0 }) as usize;
    let idx_off = (match sparse.indices_byte_offset { Some(v) => v, None => 0 }) as usize;
    let idx_ctype = (match sparse.indices_component_type { Some(v) => v, None => 5125 }) as u32;
    let idx_csz = component_size(idx_ctype);
    let (ib, is, ie) = match sparse_slice(root, buffers, SparsePart::Indices, idx_bv_i, idx_off) {
        Ok(t) => t,
        Err(e) => {
            return Err(e);
        },
    };
    let val_bv_i = (match sparse.values_buffer_view { Some(v) => v, None => 0 }) as usize;
    let val_off = (match sparse.values_byte_offset { Some(v) => v, None => 0 }) as usize;
    let val_csz = component_size(component_type);
    let (vb, vs, ve) = match sparse_slice(root, buffers, SparsePart::Values, val_bv_i, val_off) {
        Ok(t) => t,
        Err(e) => {
            return Err(e);
        },
    };
    let idx_slice = vstd::slice::slice_subrange(buffers[ib].as_slice(), is, ie);
    let val_slice = vstd::slice::slice_subrange(buffers[vb].as_slice(), vs, ve);
    match check_stride_fits(0, sparse_count, idx_csz, idx_csz, idx_slice.len()) {
        Ok(_) => {},
        Err(e) => {
            return Err(e);
        },
    }
    let val_total = match sparse_count.checked_mul(val_csz) {
        Some(v) => v,
        None => {
            return Err(GltfError::SparseValueOverflow);
        },
    };
    if val_total > val_slice.len() {
        return Err(GltfError::SparseValuesTooShort { need: val_total, available: val_slice.len() });
    }
    let ghost old_out = out@;
    let il = idx_slice.len();
    let vl = val_slice.len();
    let mut k: usize = 0;
    while k < sparse_count
        invariant
            il == idx_slice@.len(),
            vl == val_slice@.len(),
            k <= sparse_count,
            (sparse_count - 1) * idx_csz + idx_csz <= idx_slice@.len(),
            sparse_count * val_csz <= val_slice@.len(),
            1 <= idx_csz <= 4,
            1 <= val_csz <= 4,
            idx_csz == component_size_spec(idx_ctype),
            val_csz == component_size_spec(component_type),
            out@ == sparse_u32_fold(idx_slice@, idx_ctype, val_slice@, component_type, old_out, k as nat),
        decreases sparse_count - k,
    {
        assert(k * idx_csz + idx_csz <= idx_slice@.len()) by (nonlinear_arith)
            requires k < sparse_count, (sparse_count - 1) * idx_csz + idx_csz <= idx_slice@.len(), idx_csz >= 1;
        assert(k * val_csz + val_csz <= val_slice@.len()) by (nonlinear_arith)
            requires k < sparse_count, sparse_count * val_csz <= val_slice@.len(), val_csz >= 1;
        let idx_pos = k * idx_csz;
        if idx_ctype == 5121 || idx_ctype == 5123 || idx_ctype == 5125 {
            let tgt = read_raw(idx_slice, idx_pos, idx_ctype) as usize;
            let val = read_index(val_slice, k * val_csz, component_type);
            if tgt < out.len() {
                out.set(tgt, val);
            }
        }
        k = k + 1;
    }
    Ok(())
}

/// What `read_u32` returns for accessor `acc_idx`.
pub open spec fn read_u32_spec(root: GltfRootView, bufs: Seq<Seq<u8>>, acc_idx: usize) -> Result<Seq<u32>, GltfError> {
    match validate_accessor_spec(root, acc_idx) {
        Err(e) => Err(e),
        Ok(acc) => {
            let ct = acc.component_type;
            let base: Result<Seq<u32>, GltfError> = if acc.buffer_view is Some {
                match get_slice_spec(root, bufs, acc) {
                    Err(e) => Err(e),
                    Ok(sl) => match stride_fits_spec(acc_idx, acc.count, sl.stride, component_size_spec(ct), (sl.end - sl.start) as usize) {
                        Err(e) => Err(e),
                        Ok(_) => Ok(Seq::new(acc.count as nat, |i: int| index_value(slice_bytes(bufs, sl), i * sl.stride, ct))),
                    },
                }
            } else {
                Ok(Seq::new(acc.count as nat, |i: int| 0u32))
            };
            match base {
                Err(e) => Err(e),
                Ok(out) => match acc.sparse {
                    None => Ok(out),
                    Some(sp) => apply_sparse_u32_spec(root, bufs, sp, ct, out),
                },
            }
        },
    }
}

/// Reads an accessor as `u32` values (unsigned byte, short and int
/// components; other types read as 0), then applies its sparse override.
/// Without a bufferView the values start as zeros.
pub fn read_u32(root: &GltfRoot, buffers: &[Vec<u8>], acc_idx: usize) -> (r: Result<Vec<u32>, GltfError>)
    ensures
        match (r, read_u32_spec(root@, bufs_view(buffers@), acc_idx)) {
            (Ok(v), Ok(sv)) => v@ == sv,
            (Err(e), Err(se)) => e == se,
            _ => false,
        },
{
    let acc = match validate_accessor(root, acc_idx) {
        Ok(a) => a,
        Err(e) => {
            return Err(e);
        },
    };
    let ct = acc.component_type;
    let mut out: Vec<u32> = Vec::new();
    if acc.buffer_view.is_some() {
        let sl = match get_slice(root, buffers, acc) {
            Ok(s) => s,
            Err(e) => {
                return Err(e);
            },
        };
        let slice = vstd::slice::slice_subrange(buffers[sl.buffer].as_slice(), sl.start, sl.end);
        let comp_sz = component_size(ct);
        match check_stride_fits(acc_idx, acc.count, sl.stride, comp_sz, slice.len()) {
            Ok(_) => {},
            Err(e) => {
                return Err(e);
            },
        }
        let sl_len = slice.len();
        let mut i: usize = 0;
        while i < acc.count
            invariant
                sl_len == slice@.len(),
                i <= acc.count,
                acc.count > 0 ==> (acc.count - 1) * sl.stride + comp_sz <= slice@.len(),
                comp_sz == component_size_spec(ct),
                out@ == Seq::new(i as nat, |j: int| index_value(slice@, j * sl.stride, ct)),
            decreases acc.count - i,
        {
            assert(i * sl.stride + comp_sz <= slice@.len()) by (nonlinear_arith)
                requires i < acc.count, (acc.count - 1) * sl.stride + comp_sz <= slice@.len();
            let v = read_index(slice, i * sl.stride, ct);
            out.push(v);
            i = i + 1;
            assert(out@ =~= Seq::new(i as nat, |j: int| index_value(slice@, j * sl.stride, ct)));
        }
    } else {
        let mut i: usize = 0;
        while i < acc.count
            invariant
                i <= acc.count,
                out@ == Seq::new(i as nat, |j: int| 0u32),
            decreases acc.count - i,
        {
            out.push(0);
            i = i + 1;
            assert(out@ =~= Seq::new(i as nat, |j: int| 0u32));
        }
    }
    match &acc.sparse {
        None => Ok(out),
        Some(sp) => match apply_sparse_u32(root, buffers, sp, ct, &mut out) {
            Ok(_) => Ok(out),
            Err(e) => Err(e),
        },
    }
}

/// The words after the sparse entry `k` with target element `t` has set
/// its first `c` components (each when its position is in range).
pub open spec fn sparse_comps(prev: Seq<u32>, t: u32, vb: Seq<u8>, ct: u32, n: nat, k: int, c: nat) -> Seq<u32>
    decreases c,
{
    if c == 0 {
        prev
    } else {
        let p = sparse_comps(prev, t, vb, ct, n, k, (c - 1) as nat);
        let dst = t * n + (c - 1);
        if dst < p.len() {
            p.update(dst, raw_component(vb, (k * n + (c - 1)) * component_size_spec(ct), ct))
        } else {
            p
        }
    }
}

/// The words after the first `k` sparse entries of an accessor with `n`
/// components per element.
pub open spec fn sparse_raw_fold(ib: Seq<u8>, ict: u32, vb: Seq<u8>, ct: u32, n: nat, out: Seq<u32>, k: nat) -> Seq<u32>
    decreases k,
{
    if k == 0 {
        out
    } else {
        let prev = sparse_raw_fold(ib, ict, vb, ct, n, out, (k - 1) as nat);
        match sparse_target(ib, (k - 1) * component_size_spec(ict), ict) {
            None => prev,
            Some(t) => sparse_comps(prev, t, vb, ct, n, k - 1, n),
        }
    }
}

/// What `apply_sparse_words` makes of `out`.
pub open spec fn apply_sparse_words_spec(root: GltfRootView, bufs: Seq<Seq<u8>>, sp: GltfSparse, ct: u32, n: usize, out: Seq<u32>) -> Result<Seq<u32>, GltfError> {
    let cnt = sparse_count(sp);
    if cnt == 0 {
        Ok(out)
    } else {
        let ict = sparse_index_type(sp);
        let icsz = component_size_spec(ict);
        let vcsz = component_size_spec(ct);
        match sparse_slice_spec(root, bufs, SparsePart::Indices, or_zero(sp.indices_buffer_view), or_zero(sp.indices_byte_offset)) {
            Err(e) => Err(e),
            Ok((ibuf, is, ie)) => match sparse_slice_spec(root, bufs, SparsePart::Values, or_zero(sp.values_buffer_view), or_zero(sp.values_byte_offset)) {
                Err(e) => Err(e),
                Ok((vbuf, vs, ve)) => match stride_fits_spec(0, cnt, icsz, icsz, (ie - is) as usize) {
                    Err(e) => Err(e),
                    Ok(_) => {
                        let total = cnt * n * vcsz;
                        if total > usize::MAX {
                            Err(GltfError::SparseValueOverflow)
                        } else if total > ve - vs {
                            Err(GltfError::SparseValuesTooShort { need: total as usize, available: (ve - vs) as usize })
                        } else {
                            Ok(sparse_raw_fold(bufs[ibuf as int].subrange(is as int, ie as int), ict,
                                bufs[vbuf as int].subrange(vs as int, ve as int), ct, n as nat, out, cnt as nat))
                        }
                    },
                },
            },
        }
    }
}

/// Applies a sparse override to the component words of an accessor with
/// `n_comps` components per element.
pub fn apply_sparse_words(root: &GltfRoot, buffers: &[Vec<u8>], sparse: &GltfSparse, component_type: u32, out: &mut Vec<u32>, n_comps: usize) -> (r: Result<(), GltfError>)
    requires
        1 <= n_comps <= 16,
    ensures
        match (r, apply_sparse_words_spec(root@, bufs_view(buffers@), *sparse, component_type, n_comps, old(out)@)) {
            (Ok(_), Ok(v)) => final(out)@ == v,
            (Err(e), Err(se)) => e == se,
            _ => false,
        },
{
    let sparse_count = (match sparse.count { Some(v) => v, None => 0 }) as usize;
    if sparse_count == 0 {
        return Ok(());
    }
    let idx_bv_i = (match sparse.indices_buffer_view { Some(v) => v, None => 0 }) as usize;
    let idx_off = (match sparse.indices_byte_offset { Some(v) => v, None => 0 }) as usize;
    let idx_ctype = (match sparse.indices_component_type { Some(v) => v, None => 5125 }) as u32;
    let idx_csz = component_size(idx_ctype);
    let (ib, is, ie) = match sparse_slice(root, buffers, SparsePart::Indices, idx_bv_i, idx_off) {
        Ok(t) => t,
        Err(e) => {
            return Err(e);
        },
    };
    let val_bv_i = (match sparse.values_buffer_view { Some(v) => v, None => 0 }) as usize;
    let val_off = (match sparse.values_byte_offset { Some(v) => v, None => 0 }) as usize;
    let val_csz = component_size(component_type);
    let (vb, vs, ve) = match sparse_slice(root, buffers, SparsePart::Values, val_bv_i, val_off) {
        Ok(t) => t,
        Err(e) => {
            return Err(e);
        },
    };
    let idx_slice = vstd::slice::slice_subrange(buffers[ib].as_slice(), is, ie);
    let val_slice = vstd::slice::slice_subrange(buffers[vb].as_slice(), vs, ve);
    match check_stride_fits(0, sparse_count, idx_csz, idx_csz, idx_slice.len()) {
        Ok(_) => {},
        Err(e) => {
            return Err(e);
        },
    }
    let val_total = match sparse_count.checked_mul(n_comps) {
        Some(v) => match v.checked_mul(val_csz) {
            Some(t) => t,
            None => {
                return Err(GltfError::SparseValueOverflow);
            },
        },
        None => {
            proof {
                assert(sparse_count * n_comps * val_csz >= sparse_count * n_comps) by (nonlinear_arith)
                    requires val_csz >= 1, sparse_count * n_comps >= 0;
            }
            return Err(GltfError::SparseValueOverflow);
        },
    };
    if val_total > val_slice.len() {
        return Err(GltfError::SparseValuesTooShort { need: val_total, available: val_slice.len() });
    }
    let ghost old_out = out@;
    let il = idx_slice.len();
    let vl = val_slice.len();
    let mut k: usize = 0;
    while k < sparse_count
        invariant
            il == idx_slice@.len(),
            vl == val_slice@.len(),
            k <= sparse_count,
            1 <= n_comps <= 16,
            (sparse_count - 1) * idx_csz + idx_csz <= idx_slice@.len(),
            sparse_count * n_comps * val_csz <= val_slice@.len(),
            1 <= idx_csz <= 4,
            1 <= val_csz <= 4,
            idx_csz == component_size_spec(idx_ctype),
            val_csz == component_size_spec(component_type),
            out@ == sparse_raw_fold(idx_slice@, idx_ctype, val_slice@, component_type, n_comps as nat, old_out, k as nat),
        decreases sparse_count - k,
    {
        assert(k * idx_csz + idx_csz <= idx_slice@.len()) by (nonlinear_arith)
            requires k < sparse_count, (sparse_count - 1) * idx_csz + idx_csz <= idx_slice@.len(), idx_csz >= 1;
        if idx_ctype == 5121 || idx_ctype == 5123 || idx_ctype == 5125 {
            let tgt = read_raw(idx_slice, k * idx_csz, idx_ctype);
            let ghost prev = out@;
            let mut c: usize = 0;
            while c < n_comps
                invariant
                    vl == val_slice@.len(),
                    k < sparse_count,
                    c <= n_comps,
                    1 <= n_comps <= 16,
                    sparse_count * n_comps * val_csz <= val_slice@.len(),
                    1 <= val_csz <= 4,
                    val_csz == component_size_spec(component_type),
                    out@ == sparse_comps(prev, tgt, val_slice@, component_type, n_comps as nat, k as int, c as nat),
                decreases n_comps - c,
            {
                assert((k * n_comps + c) * val_csz + val_csz <= val_slice@.len()) by (nonlinear_arith)
                    requires k < sparse_count, c < n_comps, sparse_count * n_comps * val_csz <= val_slice@.len(), val_csz >= 1;
                let src = (k * n_comps + c) * val_csz;
                let val = read_raw(val_slice, src, component_type);
                assert((tgt as u64) * (n_comps as u64) <= 0xFFFF_FFFFu64 * 16) by (nonlinear_arith)
                    requires tgt <= 0xFFFF_FFFFu32, n_comps <= 16;
                let dst: u64 = (tgt as u64) * (n_comps as u64) + (c as u64);
                if dst < out.len() as u64 {
                    out.set(dst as usize, val);
                }
                c = c + 1;
            }
        }
        k = k + 1;
    }
    Ok(())
}

/// The component words of `count` elements of `n` components `sz` bytes
/// each, elements `stride` bytes apart.
pub open spec fn element_words(s: Seq<u8>, count: nat, n: nat, stride: int, sz: int, ct: u32) -> Seq<u32> {
    Seq::new(count * n, |j: int| raw_component(s, (j / n as int) * stride + (j % n as int) * sz, ct))
}

/// What `read_f32_words` returns for accessor `acc_idx`.
pub open spec fn read_f32_words_spec(root: GltfRootView, bufs: Seq<Seq<u8>>, acc_idx: usize) -> Result<Seq<u32>, GltfError> {
    match validate_accessor_spec(root, acc_idx) {
        Err(e) => Err(e),
        Ok(acc) => {
            let ct = acc.component_type;
            let n = num_components_spec(acc.type_);
            let sz = component_size_spec(ct);
            let base: Result<Seq<u32>, GltfError> = if acc.buffer_view is Some {
                match get_slice_spec(root, bufs, acc) {
                    Err(e) => Err(e),
                    Ok(sl) => match stride_fits_spec(acc_idx, acc.count, sl.stride, (n * sz) as usize, (sl.end - sl.start) as usize) {
                        Err(e) => Err(e),
                        Ok(_) => Ok(element_words(slice_bytes(bufs, sl), acc.count as nat, n as nat, sl.stride as int, sz as int, ct)),
                    },
                }
            } else {
                Ok(Seq::new((acc.count * n) as nat, |j: int| 0u32))
            };
            match base {
                Err(e) => Err(e),
                Ok(out) => match acc.sparse {
                    None => Ok(out),
                    Some(sp) => apply_sparse_words_spec(root, bufs, sp, ct, n, out),
                },
            }
        },
    }
}

/// Reads an accessor's component words, element by element (zeros without
/// a bufferView), then applies its sparse override. Each word is the
/// little-endian component as stored; turning it into `f32` (by component
/// type and `normalized`) is left to the caller.
pub fn read_f32_words(root: &GltfRoot, buffers: &[Vec<u8>], acc_idx: usize) -> (r: Result<Vec<u32>, GltfError>)
    ensures
        match (r, read_f32_words_spec(root@, bufs_view(buffers@), acc_idx)) {
            (Ok(v), Ok(sv)) => v@ == sv,
            (Err(e), Err(se)) => e == se,
            _ => false,
        },
{
    let acc = match validate_accessor(root, acc_idx) {
        Ok(a) => a,
        Err(e) => {
            return Err(e);
        },
    };
    let ct = acc.component_type;
    let n_comps = num_components(&acc.type_);
    let comp_sz = component_size(ct);
    proof {
        assert(acc.count * n_comps <= acc.count * n_comps * comp_sz) by (nonlinear_arith)
            requires comp_sz >= 1, acc.count * n_comps >= 0;
        assert(n_comps * comp_sz <= 64) by (nonlinear_arith)
            requires 1 <= n_comps <= 16, 1 <= comp_sz <= 4;
    }
    let mut out: Vec<u32> = Vec::new();
    if acc.buffer_view.is_some() {
        let sl = match get_slice(root, buffers, acc) {
            Ok(s) => s,
            Err(e) => {
                return Err(e);
            },
        };
        let slice = vstd::slice::slice_subrange(buffers[sl.buffer].as_slice(), sl.start, sl.end);
        match check_stride_fits(acc_idx, acc.count, sl.stride, n_comps * comp_sz, slice.len()) {
            Ok(_) => {},
            Err(e) => {
                return Err(e);
            },
        }
        let sl_len = slice.len();
        let mut i: usize = 0;
        while i < acc.count
            invariant
                sl_len == slice@.len(),
                i <= acc.count,
                1 <= n_comps <= 16,
                1 <= comp_sz <= 4,
                comp_sz == component_size_spec(ct),
                acc.count > 0 ==> (acc.count - 1) * sl.stride + n_comps * comp_sz <= slice@.len(),
                out@ == element_words(slice@, i as nat, n_comps as nat, sl.stride as int, comp_sz as int, ct),
            decreases acc.count - i,
        {
            assert(i * sl.stride + n_comps * comp_sz <= slice@.len()) by (nonlinear_arith)
                requires i < acc.count, (acc.count - 1) * sl.stride + n_comps * comp_sz <= slice@.len();
            let base = i * sl.stride;
            let mut c: usize = 0;
            while c < n_comps
                invariant
                    sl_len == slice@.len(),
                    i < acc.count,
                    c <= n_comps,
                    1 <= n_comps <= 16,
                    1 <= comp_sz <= 4,
                    comp_sz == component_size_spec(ct),
                    base == i * sl.stride,
                    base + n_comps * comp_sz <= slice@.len(),
                    out@ == element_words(slice@, i as nat, n_comps as nat, sl.stride as int, comp_sz as int, ct) + Seq::new(c as nat, |q: int| raw_component(slice@, base + q * comp_sz, ct)),
                decreases n_comps - c,
            {
                assert(base + c * comp_sz + comp_sz <= slice@.len()) by (nonlinear_arith)
                    requires c < n_comps, base + n_comps * comp_sz <= slice@.len(), comp_sz >= 1;
                let w = read_raw(slice, base + c * comp_sz, ct);
                out.push(w);
                c = c + 1;
                assert(out@ =~= element_words(slice@, i as nat, n_comps as nat, sl.stride as int, comp_sz as int, ct) + Seq::new(c as nat, |q: int| raw_component(slice@, base + q * comp_sz, ct)));
            }
            proof {
                let ghost ii = i as int;
                let ghost nn = n_comps as int;
                let a = element_words(slice@, i as nat, n_comps as nat, sl.stride as int, comp_sz as int, ct);
                let b = element_words(slice@, (i + 1) as nat, n_comps as nat, sl.stride as int, comp_sz as int, ct);
                assert((ii + 1) * nn == ii * nn + nn) by (nonlinear_arith);
                assert forall|j: int| 0 <= j < b.len() implies #[trigger] b[j] == (a + Seq::new(n_comps as nat, |q: int| raw_component(slice@, base + q * comp_sz, ct)))[j] by {
                    if j < ii * nn {
                        assert(j < a.len());
                    } else {
                        let q = j - ii * nn;
                        assert(0 <= q < nn);
                        vstd::arithmetic::div_mod::lemma_fundamental_div_mod_converse(j, nn, ii, q);
                    }
                }
                assert(b =~= a + Seq::new(n_comps as nat, |q: int| raw_component(slice@, base + q * comp_sz, ct)));
            }
            i = i + 1;
        }
    } else {
        let total = acc.count * n_comps;
        let mut i: usize = 0;
        while i < total
            invariant
                i <= total,
                out@ == Seq::new(i as nat, |j: int| 0u32),
            decreases total - i,
        {
            out.push(0);
            i = i + 1;
            assert(out@ =~= Seq::new(i as nat, |j: int| 0u32));
        }
    }
    match &acc.sparse {
        None => Ok(out),
        Some(sp) => match apply_sparse_words(root, buffers, sp, ct, &mut out, n_comps) {
            Ok(_) => Ok(out),
            Err(e) => Err(e),
        },
    }
}

/// A joint index: unsigned byte or unsigned short; 0 for other types.
pub open spec fn joint_value(s: Seq<u8>, off: int, ct: u32) -> u16 {
    if ct == 5121 {
        s[off] as u16
    } else if ct == 5123 {
        le16(s, off) as u16
    } else {
        0
    }
}

/// The joints of element `i`.
pub open spec fn joints_at(s: Seq<u8>, i: int, stride: int, sz: int, ct: u32) -> Seq<u16> {
    Seq::new(4, |c: int| joint_value(s, i * stride + c * sz, ct))
}

/// What `read_u16_vec4` returns for accessor `acc_idx`.
pub open spec fn read_u16_vec4_spec(root: GltfRootView, bufs: Seq<Seq<u8>>, acc_idx: usize) -> Result<Seq<Seq<u16>>, GltfError> {
    match validate_accessor_spec(root, acc_idx) {
        Err(e) => Err(e),
        Ok(acc) => match get_slice_spec(root, bufs, acc) {
            Err(e) => Err(e),
            Ok(sl) => {
                let ct = acc.component_type;
                let sz = component_size_spec(ct);
                match stride_fits_spec(acc_idx, acc.count, sl.stride, (4 * sz) as usize, (sl.end - sl.start) as usize) {
                    Err(e) => Err(e),
                    Ok(_) => Ok(Seq::new(acc.count as nat, |i: int| joints_at(slice_bytes(bufs, sl), i, sl.stride as int, sz as int, ct))),
                }
            },
        },
    }
}

fn read_joint(s: &[u8], off: usize, ct: u32) -> (r: u16)
    requires
        off + component_size_spec(ct) <= s@.len(),
    ensures
        r == joint_value(s@, off as int, ct),
{
    if ct == 5121 {
        s[off] as u16
    } else if ct == 5123 {
        read_u16_le(s, off)
    } else {
        0
    }
}

/// Reads an accessor as groups of four joint indices (unsigned byte or
/// short components; other types read as 0).
pub fn read_u16_vec4(root: &GltfRoot, buffers: &[Vec<u8>], acc_idx: usize) -> (r: Result<Vec<[u16; 4]>, GltfError>)
    ensures
        match (r, read_u16_vec4_spec(root@, bufs_view(buffers@), acc_idx)) {
            (Ok(v), Ok(sv)) => v@.len() == sv.len() && forall|i: int| 0 <= i < sv.len() ==> (#[trigger] v@[i])@ == sv[i],
            (Err(e), Err(se)) => e == se,
            _ => false,
        },
{
    let acc = match validate_accessor(root, acc_idx) {
        Ok(a) => a,
        Err(e) => {
            return Err(e);
        },
    };
    let sl = match get_slice(root, buffers, acc) {
        Ok(s) => s,
        Err(e) => {
            return Err(e);
        },
    };
    let ct = acc.component_type;
    let comp_sz = component_size(ct);
    let slice = vstd::slice::slice_subrange(buffers[sl.buffer].as_slice(), sl.start, sl.end);
    match check_stride_fits(acc_idx, acc.count, sl.stride, 4 * comp_sz, slice.len()) {
        Ok(_) => {},
        Err(e) => {
            return Err(e);
        },
    }
    let sl_len = slice.len();
    let mut out: Vec<[u16; 4]> = Vec::new();
    let mut i: usize = 0;
    while i < acc.count
        invariant
            sl_len == slice@.len(),
            i <= acc.count,
            1 <= comp_sz <= 4,
            comp_sz == component_size_spec(ct),
            acc.count > 0 ==> (acc.count - 1) * sl.stride + 4 * comp_sz <= slice@.len(),
            out@.len() == i,
            forall|j: int| 0 <= j < i ==> (#[trigger] out@[j])@ == joints_at(slice@, j, sl.stride as int, comp_sz as int, ct),
        decreases acc.count - i,
    {
        assert(i * sl.stride + 4 * comp_sz <= slice@.len()) by (nonlinear_arith)
            requires i < acc.count, (acc.count - 1) * sl.stride + 4 * comp_sz <= slice@.len();
        let base = i * sl.stride;
        let j0 = read_joint(slice, base, ct);
        let j1 = read_joint(slice, base + comp_sz, ct);
        let j2 = read_joint(slice, base + 2 * comp_sz, ct);
        let j3 = read_joint(slice, base + 3 * comp_sz, ct);
        let joints = [j0, j1, j2, j3];
        assert(joints@ =~= joints_at(slice@, i as int, sl.stride as int, comp_sz as int, ct));
        out.push(joints);
        i = i + 1;
    }
    Ok(out)
}

// ── Required extensions ──────────────────────────────────────────────────────

/// Whether an extension that a file may require is one this reader loads.
pub open spec fn supported_required(e: Seq<char>) -> bool {
    e == "KHR_lights_punctual"@ || e == "KHR_materials_specular"@ || e == "KHR_materials_ior"@
}

/// The required extensions that are not supported, in order.
pub open spec fn unsupported_extensions(req: Seq<Seq<char>>) -> Seq<Seq<char>>
    decreases req.len(),
{
    if req.len() == 0 {
        seq![]
    } else {
        let rest = unsupported_extensions(req.drop_last());
        if supported_required(req.last()) {
            rest
        } else {
            rest.push(req.last())
        }
    }
}

fn is_supported_required(e: &String) -> (r: bool)
    ensures
        r == supported_required(e@),
{
    *e == "KHR_lights_punctual".to_owned() || *e == "KHR_materials_specular".to_owned() || *e == "KHR_materials_ior".to_owned()
}

/// Refuses a document whose `extensionsRequired` lists an extension this
/// reader cannot load; the error names every such extension, in order.
pub fn enforce_supported_extensions(root: &GltfRoot) -> (r: Result<(), GltfError>)
    ensures
        unsupported_extensions(root@.extensions_required).len() == 0 ==> r is Ok,
        unsupported_extensions(root@.extensions_required).len() > 0 ==> (r matches Err(GltfError::UnsupportedExtensions { names })
            && names@.map_values(|n: Vec<u8>| n@) == unsupported_extensions(root@.extensions_required).map_values(|e: Seq<char>| vstd::utf8::encode_utf8(e))),
{
    let req = &root.extensions_required;
    let mut names: Vec<Vec<u8>> = Vec::new();
    let mut i: usize = 0;
    while i < req.len()
        invariant
            i <= req@.len(),
            root@.extensions_required == req@.map_values(|e: String| e@),
            names@.map_values(|n: Vec<u8>| n@) == unsupported_extensions(root@.extensions_required.take(i as int)).map_values(|e: Seq<char>| vstd::utf8::encode_utf8(e)),
            names@.len() == unsupported_extensions(root@.extensions_required.take(i as int)).len(),
        decreases req@.len() - i,
    {
        let ghost before = root@.extensions_required.take(i as int);
        assert(root@.extensions_required.take(i + 1).drop_last() =~= before);
        if !is_supported_required(&req[i]) {
            let st = req[i].as_str();
            let bytes = vstd::slice::slice_to_vec(st.as_bytes());
            assert(bytes@ == vstd::utf8::encode_utf8(req@[i as int]@));
            assert(root@.extensions_required.take(i + 1).last() == req@[i as int]@);
            let ghost u0 = unsupported_extensions(before);
            let ghost u1 = unsupported_extensions(root@.extensions_required.take(i + 1));
            assert(u1 == u0.push(req@[i as int]@));
            let ghost old_names = names@;
            names.push(bytes);
            assert(names@.map_values(|n: Vec<u8>| n@) =~= old_names.map_values(|n: Vec<u8>| n@).push(bytes@));
            assert(u1.map_values(|e: Seq<char>| vstd::utf8::encode_utf8(e)) =~= u0.map_values(|e: Seq<char>| vstd::utf8::encode_utf8(e)).push(vstd::utf8::encode_utf8(req@[i as int]@)));
            assert(names@.map_values(|n: Vec<u8>| n@) =~= unsupported_extensions(root@.extensions_required.take(i + 1)).map_values(|e: Seq<char>| vstd::utf8::encode_utf8(e)));
        }
        i = i + 1;
    }
    assert(root@.extensions_required.take(i as int) =~= root@.extensions_required);
    if names.len() == 0 {
        Ok(())
    } else {
        Err(GltfError::UnsupportedExtensions { names })
    }
}

// ── Building a document ──────────────────────────────────────────────────────

/// Appends a bufferView and returns its index.
pub fn push_bv(gltf: &mut GltfRoot, buffer: usize, offset: usize, length: usize, stride: Option<usize>, target: Option<u32>) -> (r: usize)
    ensures
        r == old(gltf)@.buffer_views.len(),
        final(gltf)@.buffer_views == old(gltf)@.buffer_views.push(
            GltfBufferView { buffer, byte_offset: offset, byte_length: length, byte_stride: stride, target },
        ),
        final(gltf)@.accessors == old(gltf)@.accessors,
        final(gltf)@.extensions_required == old(gltf)@.extensions_required,
{
    let idx = gltf.buffer_views.len();
    gltf.buffer_views.push(GltfBufferView { buffer, byte_offset: offset, byte_length: length, byte_stride: stride, target });
    idx
}

/// Appends an accessor over bufferView `bv` (not normalized, not sparse)
/// and returns its index.
pub fn push_acc(gltf: &mut GltfRoot, bv: usize, component_type: u32, count: usize, type_: &str, byte_offset: usize) -> (r: usize)
    ensures
        r == old(gltf)@.accessors.len(),
        final(gltf)@.accessors == old(gltf)@.accessors.push(
            GltfAccessorView {
                buffer_view: Some(bv),
                byte_offset,
                component_type,
                count,
                type_: type_@,
                normalized: false,
                sparse: None,
            },
        ),
        final(gltf)@.buffer_views == old(gltf)@.buffer_views,
        final(gltf)@.extensions_required == old(gltf)@.extensions_required,
{
    let idx = gltf.accessors.len();
    let acc = GltfAccessor {
        buffer_view: Some(bv),
        byte_offset,
        component_type,
        count,
        type_: type_.to_owned(),
        normalized: false,
        sparse: None,
    };
    gltf.accessors.push(acc);
    assert(gltf@.accessors =~= old(gltf)@.accessors.push(acc@));
    idx
}

// ── Primitive modes ──────────────────────────────────────────────────────────

/// The triangles of a strip: triangle `i` is `(s[i], s[i+1], s[i+2])` when
/// `i` is even and `(s[i], s[i+2], s[i+1])` when odd, keeping the winding.
pub open spec fn strip_triangles(s: Seq<u32>) -> Seq<u32> {
    let n: int = if s.len() >= 3 { s.len() - 2 } else { 0 };
    Seq::new((3 * n) as nat, |j: int| {
        let i = j / 3;
        let c = j % 3;
        if c == 0 {
            s[i]
        } else if (c == 1) == (i % 2 == 0) {
            s[i + 1]
        } else {
            s[i + 2]
        }
    })
}

/// The triangles of a fan: triangle `i` is `(s[0], s[i+1], s[i+2])`.
pub open spec fn fan_triangles(s: Seq<u32>) -> Seq<u32> {
    let n: int = if s.len() >= 3 { s.len() - 2 } else { 0 };
    Seq::new((3 * n) as nat, |j: int| {
        let i = j / 3;
        let c = j % 3;
        if c == 0 {
            s[0]
        } else if c == 1 {
            s[i + 1]
        } else {
            s[i + 2]
        }
    })
}

/// The first index value that names no vertex.
pub open spec fn first_out_of_range(s: Seq<u32>, vertex_count: usize) -> Option<u32>
    decreases s.len(),
{
    if s.len() == 0 {
        None
    } else if s[0] >= vertex_count {
        Some(s[0])
    } else {
        first_out_of_range(s.drop_first(), vertex_count)
    }
}

/// What `triangulate` returns: triangles (mode 4, the default) are kept,
/// strips (5) and fans (6) are expanded to triangles, other modes are
/// refused, and so is an index value that names no vertex.
pub open spec fn triangulate_spec(mode: Option<u32>, s: Seq<u32>, vertex_count: usize) -> Result<Seq<u32>, GltfError> {
    let m = match mode {
        Some(m) => m,
        None => 4,
    };
    if m != 4 && m != 5 && m != 6 {
        Err(GltfError::UnsupportedMode { mode: m })
    } else {
        match first_out_of_range(s, vertex_count) {
            Some(v) => Err(GltfError::IndexOutOfRange { index: v, vertex_count }),
            None => Ok(
                if m == 4 {
                    s
                } else if m == 5 {
                    strip_triangles(s)
                } else {
                    fan_triangles(s)
                },
            ),
        }
    }
}

proof fn lemma_div3(j: int, i: int, c: int)
    requires
        0 <= c < 3,
        j == 3 * i + c,
    ensures
        j / 3 == i,
        j % 3 == c,
{
    vstd::arithmetic::div_mod::lemma_fundamental_div_mod_converse(j, 3, i, c);
}

/// Turns a primitive's index list into a triangle list by its mode, after
/// checking every index against the vertex count.
pub fn triangulate(mode: Option<u32>, indices: &[u32], vertex_count: usize) -> (r: Result<Vec<u32>, GltfError>)
    ensures
        match (r, triangulate_spec(mode, indices@, vertex_count)) {
            (Ok(v), Ok(sv)) => v@ == sv,
            (Err(e), Err(se)) => e == se,
            _ => false,
        },
{
    let m = match mode {
        Some(m) => m,
        None => 4,
    };
    if m != 4 && m != 5 && m != 6 {
        return Err(GltfError::UnsupportedMode { mode: m });
    }
    let mut k: usize = 0;
    assert(indices@.skip(0) =~= indices@);
    while k < indices.len()
        invariant
            k <= indices@.len(),
            m == (match mode { Some(m) => m, None => 4 }),
            m == 4 || m == 5 || m == 6,
            first_out_of_range(indices@, vertex_count) == first_out_of_range(indices@.skip(k as int), vertex_count),
        decreases indices@.len() - k,
    {
        assert(indices@.skip(k as int).drop_first() =~= indices@.skip(k + 1));
        assert(indices@.skip(k as int)[0] == indices@[k as int]);
        if (indices[k] as u64) >= (vertex_count as u64) {
            assert(first_out_of_range(indices@.skip(k as int), vertex_count) == Some(indices@[k as int]));
            return Err(GltfError::IndexOutOfRange { index: indices[k], vertex_count });
        }
        k = k + 1;
    }
    let n = indices.len();
    if m == 4 {
        return Ok(vstd::slice::slice_to_vec(indices));
    }
    let tris: usize = if n >= 3 { n - 2 } else { 0 };
    let mut out: Vec<u32> = Vec::new();
    let mut i: usize = 0;
    while i < tris
        invariant
            n == indices@.len(),
            tris == (if n >= 3 { n - 2 } else { 0 }),
            m == 5 || m == 6,
            i <= tris,
            out@.len() == 3 * i,
            forall|j: int| 0 <= j < 3 * i ==> #[trigger] out@[j] == (if m == 5 {
                strip_triangles(indices@)
            } else {
                fan_triangles(indices@)
            })[j],
        decreases tris - i,
    {
        let (a, b, c) = if m == 5 {
            if i % 2 == 0 {
                (indices[i], indices[i + 1], indices[i + 2])
            } else {
                (indices[i], indices[i + 2], indices[i + 1])
            }
        } else {
            (indices[0], indices[i + 1], indices[i + 2])
        };
        proof {
            lemma_div3(3 * i, i as int, 0);
            lemma_div3(3 * i + 1, i as int, 1);
            lemma_div3(3 * i + 2, i as int, 2);
        }
        out.push(a);
        out.push(b);
        out.push(c);
        i = i + 1;
    }
    proof {
        let t = if m == 5 { strip_triangles(indices@) } else { fan_triangles(indices@) };
        assert(out@ =~= t);
    }
    Ok(out)
}

// ── Buffer sources and data URIs ─────────────────────────────────────────────

/// `base64::DecodeError`, the error of a refused decode; it is only carried,
/// never looked into.
#[verifier::external_type_specification]
#[verifier::external_body]
pub struct ExDecodeError(base64::DecodeError);

/// What the standard base64 engine (RFC 4648 alphabet, with padding)
/// decodes `input` to, or `None` when it refuses it.
pub uninterp spec fn base64_standard_decode(input: Seq<u8>) -> Option<Seq<u8>>;

/// A digit of the standard base64 alphabet: `A`-`Z`, `a`-`z`, `0`-`9`,
/// `+`, `/` for the values 0 to 63.
pub open spec fn base64_digit(v: nat) -> u8 {
    if v < 26 {
        (65 + v) as u8
    } else if v < 52 {
        (97 + v - 26) as u8
    } else if v < 62 {
        (48 + v - 52) as u8
    } else if v == 62 {
        43
    } else {
        47
    }
}

/// Standard base64 is four digits per started group of three bytes, all in
/// the alphabet or padding.
pub proof fn lemma_base64_encode_shape(input: Seq<u8>)
    ensures
        base64_standard_encode(input).len() == 4 * ((input.len() + 2) / 3),
        forall|k: int|
            0 <= k < base64_standard_encode(input).len() ==> is_base64_byte(#[trigger] base64_standard_encode(input)[k]),
    decreases input.len(),
{
    if input.len() >= 3 {
        lemma_base64_encode_shape(input.skip(3));
        let a = input[0] as nat;
        let b = input[1] as nat;
        let c = input[2] as nat;
        assert((a % 4) * 16 + b / 16 < 64);
        assert((b % 16) * 4 + c / 64 < 64);
        let head = seq![
            base64_digit(a / 4),
            base64_digit((a % 4) * 16 + b / 16),
            base64_digit((b % 16) * 4 + c / 64),
            base64_digit(c % 64),
        ];
        let e = base64_standard_encode(input);
        assert(e == head + base64_standard_encode(input.skip(3)));
        assert forall|k: int| 0 <= k < e.len() implies is_base64_byte(#[trigger] e[k]) by {
            if k >= 4 {
                assert(e[k] == base64_standard_encode(input.skip(3))[k - 4]);
            }
        }
    } else if input.len() == 2 {
        let a = input[0] as nat;
        let b = input[1] as nat;
        assert((a % 4) * 16 + b / 16 < 64);
        assert((b % 16) * 4 < 64);
    } else if input.len() == 1 {
        assert((input[0] as nat % 4) * 16 < 64);
    }
}

/// Standard base64 with padding (RFC 4648): each group of three bytes
/// becomes four digits of six bits, most significant first; a last group
/// of one or two bytes is padded with `=` to four.
pub open spec fn base64_standard_encode(input: Seq<u8>) -> Seq<u8>
    decreases input.len(),
{
    if input.len() == 0 {
        seq![]
    } else if input.len() == 1 {
        let a = input[0] as nat;
        seq![base64_digit(a / 4), base64_digit((a % 4) * 16), 61u8, 61u8]
    } else if input.len() == 2 {
        let a = input[0] as nat;
        let b = input[1] as nat;
        seq![base64_digit(a / 4), base64_digit((a % 4) * 16 + b / 16), base64_digit((b % 16) * 4), 61u8]
    } else {
        let a = input[0] as nat;
        let b = input[1] as nat;
        let c = input[2] as nat;
        seq![
            base64_digit(a / 4),
            base64_digit((a % 4) * 16 + b / 16),
            base64_digit((b % 16) * 4 + c / 64),
            base64_digit(c % 64),
        ] + base64_standard_encode(input.skip(3))
    }
}

/// A byte of the standard base64 alphabet (`A`-`Z`, `a`-`z`, `0`-`9`, `+`,
/// `/`) or the padding byte `=`.
pub open spec fn is_base64_byte(b: u8) -> bool {
    (65 <= b <= 90) || (97 <= b <= 122) || (48 <= b <= 57) || b == 43 || b == 47 || b == 61
}

/// `base64::engine::general_purpose::STANDARD.decode`: its result depends on
/// the input alone; `Ok` exactly when the engine accepts the input.
#[verifier::external_body]
fn decode_base64(input: &[u8]) -> (r: Result<Vec<u8>, base64::DecodeError>)
    ensures
        match r {
            Ok(v) => base64_standard_decode(input@) == Some(v@),
            Err(_) => base64_standard_decode(input@) is None,
        },
{
    base64::engine::general_purpose::STANDARD.decode(input)
}

/// `base64::engine::general_purpose::STANDARD.encode`, as bytes: standard
/// base64 with padding, and the same engine decodes it back to the input
/// (it is the canonical padded form). It panics when the length does not
/// fit in `usize`, which `requires` rules out.
#[verifier::external_body]
pub(crate) fn encode_base64(input: &[u8]) -> (r: Vec<u8>)
    requires
        input@.len() + 4 <= usize::MAX / 2,
    ensures
        r@ == base64_standard_encode(input@),
        base64_standard_decode(r@) == Some(input@),
{
    base64::engine::general_purpose::STANDARD.encode(input).into_bytes()
}

/// Why a data URI could not be read.
#[derive(Debug, Clone, Copy, PartialEq, Eq, Structural)]
pub enum DataUriError {
    MissingComma,
    Base64,
}

/// The parts of a `data:` URI: after the scheme, the header up to the first
/// comma and the payload after it.
pub open spec fn data_uri_parts(uri: Seq<u8>) -> Option<(Seq<u8>, Seq<u8>)> {
    let rest = uri.skip("data:".spec_bytes().len() as int);
    match find_from(rest, ",".spec_bytes(), 0) {
        None => None,
        Some(c) => Some((rest.take(c), rest.skip(c + ",".spec_bytes().len()))),
    }
}

/// The media type of a data URI header: the part before the first `;`.
pub open spec fn media_type(header: Seq<u8>) -> Seq<u8> {
    match find_from(header, ";".spec_bytes(), 0) {
        None => header,
        Some(k) => header.take(k),
    }
}

/// What `decode_data_uri` returns: `None` for a URI that does not start with
/// `data:`; else the media type and the base64-decoded payload.
pub open spec fn decode_data_uri_spec(uri: Seq<u8>) -> Option<Result<(Seq<u8>, Seq<u8>), DataUriError>> {
    if !begins_with(uri, "data:".spec_bytes()) {
        None
    } else {
        match data_uri_parts(uri) {
            None => Some(Err(DataUriError::MissingComma)),
            Some((header, payload)) => match base64_standard_decode(payload) {
                None => Some(Err(DataUriError::Base64)),
                Some(data) => Some(Ok((media_type(header), data))),
            },
        }
    }
}

/// Reads a `data:` URI: its media type and its base64 payload decoded.
pub fn decode_data_uri(uri: &[u8]) -> (r: Option<Result<(Vec<u8>, Vec<u8>), DataUriError>>)
    ensures
        match (r, decode_data_uri_spec(uri@)) {
            (None, None) => true,
            (Some(Ok((m, d))), Some(Ok((sm, sd)))) => m@ == sm && d@ == sd,
            (Some(Err(e)), Some(Err(se))) => e == se,
            _ => false,
        },
{
    let scheme = "data:".as_bytes();
    if !starts_with(uri, scheme) {
        return None;
    }
    let rest = copy_range(uri, scheme.len(), uri.len());
    assert(rest@ =~= uri@.skip(scheme@.len() as int));
    let comma_pat = ",".as_bytes();
    let comma = match find_bytes(rest.as_slice(), comma_pat) {
        None => {
            return Some(Err(DataUriError::MissingComma));
        },
        Some(c) => c,
    };
    proof {
        lemma_find_from_some(rest@, ",".spec_bytes(), 0);
    }
    let header = copy_range(rest.as_slice(), 0, comma);
    let payload = copy_range(rest.as_slice(), comma + comma_pat.len(), rest.len());
    assert(header@ =~= rest@.take(comma as int));
    assert(payload@ =~= rest@.skip(comma + comma_pat@.len()));
    let mime = match find_bytes(header.as_slice(), ";".as_bytes()) {
        None => header,
        Some(k) => {
            proof {
                lemma_find_from_some(header@, ";".spec_bytes(), 0);
            }
            let t = copy_range(header.as_slice(), 0, k);
            assert(t@ =~= header@.take(k as int));
            t
        },
    };
    match decode_base64(payload.as_slice()) {
        Ok(data) => Some(Ok((mime, data))),
        Err(_) => Some(Err(DataUriError::Base64)),
    }
}

/// Where the bytes of a buffer come from.
#[derive(Debug, Clone)]
pub enum BufferSource {
    /// Decoded from a data URI.
    Embedded(Vec<u8>),
    /// A file, named by the URI relative to the document.
    File(Vec<u8>),
    /// The GLB binary chunk.
    BinChunk,
}

pub enum BufferSourceView {
    Embedded(Seq<u8>),
    File(Seq<u8>),
    BinChunk,
}

impl View for BufferSource {
    type V = BufferSourceView;

    open spec fn view(&self) -> BufferSourceView {
        match self {
            BufferSource::Embedded(d) => BufferSourceView::Embedded(d@),
            BufferSource::File(u) => BufferSourceView::File(u@),
            BufferSource::BinChunk => BufferSourceView::BinChunk,
        }
    }
}

/// Where buffer `index` comes from: its data URI decoded, else the file its
/// URI names; without a URI, the binary chunk when it is buffer 0 and the
/// chunk is not empty.
pub open spec fn buffer_source_spec(index: usize, uri: Option<Seq<u8>>, bin_len: usize) -> Result<BufferSourceView, GltfError> {
    match uri {
        Some(u) => match decode_data_uri_spec(u) {
            None => Ok(BufferSourceView::File(u)),
            Some(Ok((_, data))) => Ok(BufferSourceView::Embedded(data)),
            Some(Err(DataUriError::MissingComma)) => Err(GltfError::DataUriMissingComma),
            Some(Err(DataUriError::Base64)) => Err(GltfError::Base64Invalid),
        },
        None => if index == 0 && bin_len > 0 {
            Ok(BufferSourceView::BinChunk)
        } else {
            Err(GltfError::BufferMissing { index })
        },
    }
}

pub fn buffer_source(index: usize, uri: Option<&[u8]>, bin_len: usize) -> (r: Result<BufferSource, GltfError>)
    ensures
        match (r, buffer_source_spec(index, match uri { Some(u) => Some(u@), None => None }, bin_len)) {
            (Ok(s), Ok(ss)) => s@ == ss,
            (Err(e), Err(se)) => e == se,
            _ => false,
        },
{
    match uri {
        Some(u) => match decode_data_uri(u) {
            None => Ok(BufferSource::File(vstd::slice::slice_to_vec(u))),
            Some(Ok((_, data))) => Ok(BufferSource::Embedded(data)),
            Some(Err(DataUriError::MissingComma)) => Err(GltfError::DataUriMissingComma),
            Some(Err(DataUriError::Base64)) => Err(GltfError::Base64Invalid),
        },
        None => if index == 0 && bin_len > 0 {
            Ok(BufferSource::BinChunk)
        } else {
            Err(GltfError::BufferMissing { index })
        },
    }
}

/// The data URI a saver gives a non-empty binary buffer.
pub open spec fn buffer_uri_spec(bin: Seq<u8>) -> Option<Seq<u8>> {
    if bin.len() == 0 {
        None
    } else {
        Some("data:application/octet-stream;base64,".spec_bytes() + base64_standard_encode(bin))
    }
}

/// Embeds a binary buffer as a base64 data URI; an empty buffer gets none.
/// The URI reads back as the buffer: decoding it gives the media type
/// `application/octet-stream` and the bytes, and as the URI of buffer
/// `index` it makes that buffer those bytes.
pub fn embedded_buffer_uri(bin: &[u8]) -> (r: Option<Vec<u8>>)
    requires
        bin@.len() + 4 <= usize::MAX / 2,
    ensures
        match (r, buffer_uri_spec(bin@)) {
            (Some(u), Some(su)) => u@ == su,
            (None, None) => true,
            _ => false,
        },
        r matches Some(u) ==> decode_data_uri_spec(u@) == Some(
            Ok::<(Seq<u8>, Seq<u8>), DataUriError>(("application/octet-stream".spec_bytes(), bin@)),
        ) && forall|index: usize, bin_len: usize| #[trigger] buffer_source_spec(index, Some(u@), bin_len)
            == Ok::<BufferSourceView, GltfError>(BufferSourceView::Embedded(bin@)),
{
    if bin.len() == 0 {
        return None;
    }
    let mut uri = vstd::slice::slice_to_vec("data:application/octet-stream;base64,".as_bytes());
    let enc = encode_base64(bin);
    push_bytes(&mut uri, enc.as_slice());
    proof {
        lemma_base64_encode_shape(bin@);
        assert forall|index: usize, bin_len: usize| #[trigger] buffer_source_spec(index, Some(uri@), bin_len)
            == Ok::<BufferSourceView, GltfError>(BufferSourceView::Embedded(bin@)) by {
            lemma_embedded_buffer_round_trip(bin@, index, bin_len);
        }
        lemma_embedded_buffer_round_trip(bin@, 0, 0);
    }
    Some(uri)
}

/// What a loader reads a file as: a GLB container when it starts with
/// `glTF`, else the whole file as JSON with no binary chunk.
pub open spec fn split_container_spec(d: Seq<u8>) -> Result<(Seq<u8>, Seq<u8>), GltfError> {
    if begins_with(d, "glTF".spec_bytes()) {
        parse_glb_spec(d)
    } else {
        Ok((d, seq![]))
    }
}

/// The glTF loader's reading of a file into JSON and binary chunk.
pub struct GltfLoader;

/// The glTF saver's framing of JSON and binary data.
pub struct GltfSaver;

impl GltfLoader {
    /// Splits a `.gltf` or `.glb` file into its JSON text and binary chunk.
    pub fn split_container(&self, data: &[u8]) -> (r: Result<(Vec<u8>, Vec<u8>), GltfError>)
        ensures
            match (r, split_container_spec(data@)) {
                (Ok((j, b)), Ok((sj, sb))) => j@ == sj && b@ == sb,
                (Err(e), Err(se)) => e == se,
                _ => false,
            },
    {
        if starts_with(data, "glTF".as_bytes()) {
            parse_glb(data)
        } else {
            Ok((vstd::slice::slice_to_vec(data), Vec::new()))
        }
    }
}

impl GltfSaver {
    /// Frames a serialised document and its binary buffer as GLB.
    pub fn glb_bytes(&self, json: &[u8], bin: &[u8]) -> (r: Vec<u8>)
        requires
            json@.len() + bin@.len() + 40 <= usize::MAX,
        ensures
            r@ == write_glb_spec(json@, bin@),
    {
        write_glb(json, bin)
    }

    /// The data URI under which a `.gltf` document embeds its buffer.
    pub fn buffer_uri(&self, bin: &[u8]) -> (r: Option<Vec<u8>>)
        requires
            bin@.len() + 4 <= usize::MAX / 2,
        ensures
            match (r, buffer_uri_spec(bin@)) {
                (Some(u), Some(su)) => u@ == su,
                (None, None) => true,
                _ => false,
            },
            r matches Some(u) ==> decode_data_uri_spec(u@) == Some(
                Ok::<(Seq<u8>, Seq<u8>), DataUriError>(("application/octet-stream".spec_bytes(), bin@)),
            ),
    {
        embedded_buffer_uri(bin)
    }
}


// ── Lengths of accessor reads ────────────────────────────────────────────────

proof fn lemma_sparse_comps_len(prev: Seq<u32>, t: u32, vb: Seq<u8>, ct: u32, n: nat, k: int, c: nat)
    ensures
        sparse_comps(prev, t, vb, ct, n, k, c).len() == prev.len(),
    decreases c,
{
    if c > 0 {
        lemma_sparse_comps_len(prev, t, vb, ct, n, k, (c - 1) as nat);
    }
}

proof fn lemma_sparse_raw_fold_len(ib: Seq<u8>, ict: u32, vb: Seq<u8>, ct: u32, n: nat, out: Seq<u32>, k: nat)
    ensures
        sparse_raw_fold(ib, ict, vb, ct, n, out, k).len() == out.len(),
    decreases k,
{
    if k > 0 {
        lemma_sparse_raw_fold_len(ib, ict, vb, ct, n, out, (k - 1) as nat);
        let prev = sparse_raw_fold(ib, ict, vb, ct, n, out, (k - 1) as nat);
        match sparse_target(ib, (k - 1) * component_size_spec(ict), ict) {
            None => {},
            Some(t) => lemma_sparse_comps_len(prev, t, vb, ct, n, k - 1, n),
        }
    }
}

proof fn lemma_sparse_u32_fold_len(ib: Seq<u8>, ict: u32, vb: Seq<u8>, ct: u32, out: Seq<u32>, k: nat)
    ensures
        sparse_u32_fold(ib, ict, vb, ct, out, k).len() == out.len(),
    decreases k,
{
    if k > 0 {
        lemma_sparse_u32_fold_len(ib, ict, vb, ct, out, (k - 1) as nat);
    }
}

/// A successful read of an accessor's component words gives `count` times
/// the components per element: the sparse override never changes the
/// length.
pub proof fn lemma_read_f32_words_len(root: GltfRootView, bufs: Seq<Seq<u8>>, acc_idx: usize)
    ensures
        read_f32_words_spec(root, bufs, acc_idx) matches Ok(v) ==> v.len() == root.accessors[acc_idx as int].count
            * num_components_spec(root.accessors[acc_idx as int].type_),
{
    match validate_accessor_spec(root, acc_idx) {
        Err(_) => {},
        Ok(acc) => {
            let n = num_components_spec(acc.type_);
            let sz = component_size_spec(acc.component_type);
            let base: Result<Seq<u32>, GltfError> = if acc.buffer_view is Some {
                match get_slice_spec(root, bufs, acc) {
                    Err(e) => Err(e),
                    Ok(sl) => match stride_fits_spec(acc_idx, acc.count, sl.stride, (n * sz) as usize, (sl.end - sl.start) as usize) {
                        Err(e) => Err(e),
                        Ok(_) => Ok(element_words(slice_bytes(bufs, sl), acc.count as nat, n as nat, sl.stride as int, sz as int, acc.component_type)),
                    },
                }
            } else {
                Ok(Seq::new((acc.count * n) as nat, |j: int| 0u32))
            };
            match base {
                Err(_) => {},
                Ok(out) => {
                    assert(out.len() == acc.count * n);
                    match acc.sparse {
                        None => {},
                        Some(sp) => {
                            let cnt = sparse_count(sp);
                            if cnt > 0 {
                                match sparse_slice_spec(root, bufs, SparsePart::Indices, or_zero(sp.indices_buffer_view), or_zero(sp.indices_byte_offset)) {
                                    Err(_) => {},
                                    Ok((ibuf, is, ie)) => match sparse_slice_spec(root, bufs, SparsePart::Values, or_zero(sp.values_buffer_view), or_zero(sp.values_byte_offset)) {
                                        Err(_) => {},
                                        Ok((vbuf, vs, ve)) => {
                                            lemma_sparse_raw_fold_len(bufs[ibuf as int].subrange(is as int, ie as int), sparse_index_type(sp),
                                                bufs[vbuf as int].subrange(vs as int, ve as int), acc.component_type, n as nat, out, cnt as nat);
                                        },
                                    },
                                }
                            }
                        },
                    }
                },
            }
        },
    }
}

/// A successful read of an accessor as `u32` values gives `count` values.
pub proof fn lemma_read_u32_len(root: GltfRootView, bufs: Seq<Seq<u8>>, acc_idx: usize)
    ensures
        read_u32_spec(root, bufs, acc_idx) matches Ok(v) ==> v.len() == root.accessors[acc_idx as int].count,
{
    match validate_accessor_spec(root, acc_idx) {
        Err(_) => {},
        Ok(acc) => {
            let ct = acc.component_type;
            let base: Result<Seq<u32>, GltfError> = if acc.buffer_view is Some {
                match get_slice_spec(root, bufs, acc) {
                    Err(e) => Err(e),
                    Ok(sl) => match stride_fits_spec(acc_idx, acc.count, sl.stride, component_size_spec(ct), (sl.end - sl.start) as usize) {
                        Err(e) => Err(e),
                        Ok(_) => Ok(Seq::new(acc.count as nat, |i: int| index_value(slice_bytes(bufs, sl), i * sl.stride, ct))),
                    },
                }
            } else {
                Ok(Seq::new(acc.count as nat, |i: int| 0u32))
            };
            match base {
                Err(_) => {},
                Ok(out) => match acc.sparse {
                    None => {},
                    Some(sp) => {
                        let n = sparse_count(sp);
                        if n > 0 {
                            match sparse_slice_spec(root, bufs, SparsePart::Indices, or_zero(sp.indices_buffer_view), or_zero(sp.indices_byte_offset)) {
                                Err(_) => {},
                                Ok((ibuf, is, ie)) => match sparse_slice_spec(root, bufs, SparsePart::Values, or_zero(sp.values_buffer_view), or_zero(sp.values_byte_offset)) {
                                    Err(_) => {},
                                    Ok((vbuf, vs, ve)) => {
                                        lemma_sparse_u32_fold_len(bufs[ibuf as int].subrange(is as int, ie as int), sparse_index_type(sp),
                                            bufs[vbuf as int].subrange(vs as int, ve as int), ct, out, n as nat);
                                    },
                                },
                            }
                        }
                    },
                },
            }
        },
    }
}

// ── Embedded buffers read back ───────────────────────────────────────────

pub(crate) proof fn lemma_find_byte_at(s: Seq<u8>, b: u8, i: int, k: int)
    requires
        0 <= i <= k < s.len(),
        s[k] == b,
        forall|j: int| i <= j < k ==> s[j] != b,
    ensures
        find_from(s, seq![b], i) == Some(k),
    decreases k - i,
{
    if i < k {
        assert(s.subrange(i, i + 1)[0] == s[i]);
        lemma_find_byte_at(s, b, i + 1, k);
    } else {
        assert(s.subrange(k, k + 1) =~= seq![b]);
    }
}

/// The data URI of a buffer reads back as the buffer, given what the base64
/// encoder promises of its output.
proof fn lemma_embedded_buffer_round_trip(bin: Seq<u8>, index: usize, bin_len: usize)
    requires
        bin.len() > 0,
        forall|k: int| 0 <= k < base64_standard_encode(bin).len() ==> is_base64_byte(
            #[trigger] base64_standard_encode(bin)[k],
        ),
        base64_standard_decode(base64_standard_encode(bin)) == Some(bin),
    ensures
        buffer_uri_spec(bin) matches Some(uri) && decode_data_uri_spec(uri) == Some(
            Ok::<(Seq<u8>, Seq<u8>), DataUriError>(("application/octet-stream".spec_bytes(), bin)),
        ) && buffer_source_spec(index, Some(uri), bin_len) == Ok::<BufferSourceView, GltfError>(
            BufferSourceView::Embedded(bin),
        ),
{
    reveal_strlit("data:application/octet-stream;base64,");
    reveal_strlit("data:");
    reveal_strlit(",");
    reveal_strlit(";");
    reveal_strlit("application/octet-stream");
    vstd::string::is_ascii_spec_bytes("data:application/octet-stream;base64,");
    vstd::string::is_ascii_spec_bytes("data:");
    vstd::string::is_ascii_spec_bytes(",");
    vstd::string::is_ascii_spec_bytes(";");
    vstd::string::is_ascii_spec_bytes("application/octet-stream");
    let p = "data:application/octet-stream;base64,".spec_bytes();
    let e = base64_standard_encode(bin);
    let uri = p + e;
    assert(p.len() == 37);
    assert(uri.take(5) =~= "data:".spec_bytes());
    assert(begins_with(uri, "data:".spec_bytes()));
    let rest = uri.skip(5);
    assert(",".spec_bytes() =~= seq![44u8]);
    assert(";".spec_bytes() =~= seq![59u8]);
    assert forall|j: int| 0 <= j < 31 implies rest[j] != 44u8 by {
        assert(rest[j] == p[j + 5]);
    }
    assert(rest[31] == 44u8);
    lemma_find_byte_at(rest, 44u8, 0, 31);
    let header = rest.take(31);
    assert(rest.skip(32) =~= e);
    assert forall|j: int| 0 <= j < 24 implies header[j] != 59u8 by {
        assert(header[j] == p[j + 5]);
    }
    assert(header[24] == 59u8);
    lemma_find_byte_at(header, 59u8, 0, 24);
    assert(header.take(24) =~= "application/octet-stream".spec_bytes());
}

} // verus!
