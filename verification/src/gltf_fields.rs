//! How the fields of a scene's materials, textures, images, meshes and
//! nodes are written to glTF and read back: optional fields are left out
//! at their default, and a reader puts the default back.

use vstd::prelude::*;
use vstd::string::StringSliceAdditionalSpecFns;
use crate::bytes::push_bytes;
use crate::gltf::{
    base64_standard_decode, base64_standard_encode, bufs_view, decode_data_uri, decode_data_uri_spec, encode_base64,
    is_base64_byte, lemma_find_byte_at, media_type, DataUriError, GltfRoot, GltfRootView,
};
use crate::text::{begins_with, find_from};

verus! {

/// How a material's alpha is used.
#[derive(Debug, Clone, Copy, PartialEq, Eq, Structural)]
pub enum AlphaMode {
    Opaque,
    Mask,
    Blend,
}

/// The `alphaMode` a writer gives: none for opaque.
pub open spec fn alpha_mode_name_spec(m: AlphaMode) -> Option<Seq<char>> {
    match m {
        AlphaMode::Opaque => None,
        AlphaMode::Mask => Some("MASK"@),
        AlphaMode::Blend => Some("BLEND"@),
    }
}

/// The alpha mode a reader takes from `alphaMode`: `MASK` and `BLEND` by
/// name, anything else (or nothing) opaque.
pub open spec fn alpha_mode_of_spec(name: Option<Seq<char>>) -> AlphaMode {
    match name {
        Some(n) => if n == "MASK"@ {
            AlphaMode::Mask
        } else if n == "BLEND"@ {
            AlphaMode::Blend
        } else {
            AlphaMode::Opaque
        },
        None => AlphaMode::Opaque,
    }
}

pub fn alpha_mode_name(m: AlphaMode) -> (r: Option<String>)
    ensures
        match (r, alpha_mode_name_spec(m)) {
            (Some(s), Some(t)) => s@ == t,
            (None, None) => true,
            _ => false,
        },
{
    match m {
        AlphaMode::Opaque => None,
        AlphaMode::Mask => Some("MASK".to_owned()),
        AlphaMode::Blend => Some("BLEND".to_owned()),
    }
}

pub fn alpha_mode_of(name: Option<&String>) -> (r: AlphaMode)
    ensures
        r == alpha_mode_of_spec(
            match name {
                Some(n) => Some(n@),
                None => None,
            },
        ),
{
    match name {
        Some(n) => if *n == "MASK".to_owned() {
            AlphaMode::Mask
        } else if *n == "BLEND".to_owned() {
            AlphaMode::Blend
        } else {
            AlphaMode::Opaque
        },
        None => AlphaMode::Opaque,
    }
}

/// Every alpha mode survives being written and read back.
pub proof fn lemma_alpha_mode_round_trip(m: AlphaMode)
    ensures
        alpha_mode_of_spec(alpha_mode_name_spec(m)) == m,
{
    reveal_strlit("MASK");
    reveal_strlit("BLEND");
    assert("BLEND"@ != "MASK"@) by {
        assert("BLEND"@.len() != "MASK"@.len());
    }
}

/// An optional count is written only when it is not zero (a UV channel,
/// `texCoord`), and read as zero when absent.
pub open spec fn nonzero_field(v: usize) -> Option<usize> {
    if v > 0 {
        Some(v)
    } else {
        None
    }
}

pub open spec fn or_zero_field(f: Option<usize>) -> usize {
    match f {
        Some(v) => v,
        None => 0,
    }
}

pub fn tex_coord_field(uv_channel: usize) -> (r: Option<usize>)
    ensures
        r == nonzero_field(uv_channel),
{
    if uv_channel > 0 {
        Some(uv_channel)
    } else {
        None
    }
}

pub fn uv_channel_of(tex_coord: Option<usize>) -> (r: usize)
    ensures
        r == or_zero_field(tex_coord),
{
    match tex_coord {
        Some(v) => v,
        None => 0,
    }
}

/// A texture's image: the `source` written, the first image when absent.
pub fn texture_source_of(source: Option<usize>) -> (r: usize)
    ensures
        r == or_zero_field(source),
{
    uv_channel_of(source)
}

/// A UV channel and a texture's image survive being written and read.
pub proof fn lemma_count_round_trip(v: usize)
    ensures
        or_zero_field(nonzero_field(v)) == v,
        or_zero_field(Some(v)) == v,
{
}

/// `doubleSided` is written only when true, and read as false when absent.
pub fn double_sided_field(double_sided: bool) -> (r: Option<bool>)
    ensures
        r == (if double_sided { Some(true) } else { None::<bool> }),
{
    if double_sided {
        Some(true)
    } else {
        None
    }
}

pub fn double_sided_of(f: Option<bool>) -> (r: bool)
    ensures
        r == (match f {
            Some(b) => b,
            None => false,
        }),
{
    match f {
        Some(b) => b,
        None => false,
    }
}

/// A name is written only when it is not empty, and read as empty when
/// absent.
pub open spec fn name_field_spec(name: Seq<char>) -> Option<Seq<char>> {
    if name.len() == 0 {
        None
    } else {
        Some(name)
    }
}

pub open spec fn name_of_spec(f: Option<Seq<char>>) -> Seq<char> {
    match f {
        Some(n) => n,
        None => Seq::empty(),
    }
}

pub fn name_field(name: &String) -> (r: Option<String>)
    ensures
        match (r, name_field_spec(name@)) {
            (Some(s), Some(t)) => s@ == t,
            (None, None) => true,
            _ => false,
        },
{
    if name.as_str().unicode_len() == 0 {
        None
    } else {
        Some(name.clone())
    }
}

pub fn name_of(f: Option<&String>) -> (r: String)
    ensures
        r@ == name_of_spec(
            match f {
                Some(n) => Some(n@),
                None => None,
            },
        ),
{
    match f {
        Some(n) => n.clone(),
        None => String::new(),
    }
}

/// Names and the double-sided flag survive being written and read back.
pub proof fn lemma_name_round_trip(name: Seq<char>, double_sided: bool)
    ensures
        name_of_spec(name_field_spec(name)) == name,
        (match (if double_sided { Some(true) } else { None::<bool> }) {
            Some(b) => b,
            None => false,
        }) == double_sided,
{
}

/// Where an image's bytes are: embedded, with their media type, or in a
/// file named by a URI.
#[derive(Debug, Clone)]
pub enum ImageOrigin {
    Embedded { mime: Vec<u8>, data: Vec<u8> },
    Uri(Vec<u8>),
}

pub enum ImageOriginView {
    Embedded { mime: Seq<u8>, data: Seq<u8> },
    Uri(Seq<u8>),
}

impl View for ImageOrigin {
    type V = ImageOriginView;

    open spec fn view(&self) -> ImageOriginView {
        match self {
            ImageOrigin::Embedded { mime, data } => ImageOriginView::Embedded { mime: mime@, data: data@ },
            ImageOrigin::Uri(u) => ImageOriginView::Uri(u@),
        }
    }
}

/// The media type a reader assumes for an image in a bufferView.
pub open spec fn default_image_mime() -> Seq<u8> {
    "image/png".spec_bytes()
}

/// Why an image's bytes could not be found.
#[derive(Debug, Clone, Copy, PartialEq, Eq, Structural)]
pub enum ImageError {
    /// Its `data:` URI does not decode.
    Uri(DataUriError),
    /// Its bufferView is missing, its buffer is missing, or the view does
    /// not lie inside the buffer.
    View { view: usize },
}

/// A bufferView's bytes may be taken: the view and its buffer exist and the
/// view lies inside the buffer.
pub open spec fn view_in_buffer(root: GltfRootView, bufs: Seq<Seq<u8>>, i: usize) -> bool {
    &&& i < root.buffer_views.len()
    &&& root.buffer_views[i as int].buffer < bufs.len()
    &&& root.buffer_views[i as int].byte_offset + root.buffer_views[i as int].byte_length
        <= bufs[root.buffer_views[i as int].buffer as int].len()
}

/// Where a reader finds an image: a `data:` URI decoded (its media type and
/// payload), another URI as a file, else the bytes of its bufferView (PNG
/// unless a media type is given; an error when the view or its buffer is
/// missing or the view lies outside the buffer), else an empty URI.
pub open spec fn image_origin_spec(
    root: GltfRootView,
    bufs: Seq<Seq<u8>>,
    uri: Option<Seq<u8>>,
    buffer_view: Option<usize>,
    mime_type: Option<Seq<u8>>,
) -> Result<ImageOriginView, ImageError> {
    match uri {
        Some(u) => match decode_data_uri_spec(u) {
            None => Ok(ImageOriginView::Uri(u)),
            Some(Ok((m, d))) => Ok(ImageOriginView::Embedded { mime: m, data: d }),
            Some(Err(e)) => Err(ImageError::Uri(e)),
        },
        None => match buffer_view {
            Some(i) => if !view_in_buffer(root, bufs, i) {
                Err(ImageError::View { view: i })
            } else {
                let bv = root.buffer_views[i as int];
                Ok(
                    ImageOriginView::Embedded {
                        mime: match mime_type {
                            Some(m) => m,
                            None => default_image_mime(),
                        },
                        data: bufs[bv.buffer as int].subrange(
                            bv.byte_offset as int,
                            bv.byte_offset + bv.byte_length,
                        ),
                    },
                )
            },
            None => Ok(ImageOriginView::Uri(Seq::empty())),
        },
    }
}

pub fn image_origin(
    root: &GltfRoot,
    buffers: &[Vec<u8>],
    uri: Option<&[u8]>,
    buffer_view: Option<usize>,
    mime_type: Option<&[u8]>,
) -> (r: Result<ImageOrigin, ImageError>)
    ensures
        match (
            r,
            image_origin_spec(
                root@,
                bufs_view(buffers@),
                match uri {
                    Some(u) => Some(u@),
                    None => None,
                },
                buffer_view,
                match mime_type {
                    Some(m) => Some(m@),
                    None => None,
                },
            ),
        ) {
            (Ok(o), Ok(so)) => o@ == so,
            (Err(e), Err(se)) => e == se,
            _ => false,
        },
{
    match uri {
        Some(u) => match decode_data_uri(u) {
            None => Ok(ImageOrigin::Uri(vstd::slice::slice_to_vec(u))),
            Some(Ok((mime, data))) => Ok(ImageOrigin::Embedded { mime, data }),
            Some(Err(e)) => Err(ImageError::Uri(e)),
        },
        None => match buffer_view {
            Some(i) => {
                if i >= root.buffer_views.len() {
                    return Err(ImageError::View { view: i });
                }
                let bv = root.buffer_views[i];
                assert(bv == root@.buffer_views[i as int]);
                if bv.buffer >= buffers.len() {
                    return Err(ImageError::View { view: i });
                }
                let blen0 = buffers[bv.buffer].len();
                assert(blen0 == bufs_view(buffers@)[bv.buffer as int].len());
                let fits = match bv.byte_offset.checked_add(bv.byte_length) {
                    Some(end) => end <= blen0,
                    None => false,
                };
                if !fits {
                    return Err(ImageError::View { view: i });
                }
                assert(view_in_buffer(root@, bufs_view(buffers@), i));
                let buf = &buffers[bv.buffer];
                assert(buf@ == bufs_view(buffers@)[bv.buffer as int]);
                let blen = buf.len();
                assert(bv.byte_offset + bv.byte_length <= blen);
                let data = crate::text::copy_range(buf.as_slice(), bv.byte_offset, bv.byte_offset + bv.byte_length);
                let mime = match mime_type {
                    Some(m) => vstd::slice::slice_to_vec(m),
                    None => vstd::slice::slice_to_vec("image/png".as_bytes()),
                };
                Ok(ImageOrigin::Embedded { mime, data })
            },
            None => Ok(ImageOrigin::Uri(Vec::new())),
        },
    }
}

/// The `uri` and `mimeType` a writer gives an image: an embedded one
/// becomes a base64 `data:` URI with its media type; a file keeps its URI.
pub open spec fn image_fields_spec(o: ImageOriginView) -> (Seq<u8>, Option<Seq<u8>>) {
    match o {
        ImageOriginView::Embedded { mime, data } => (
            "data:".spec_bytes() + mime + ";base64,".spec_bytes() + base64_standard_encode(data),
            Some(mime),
        ),
        ImageOriginView::Uri(u) => (u, None),
    }
}

pub fn image_fields(o: &ImageOrigin) -> (r: (Vec<u8>, Option<Vec<u8>>))
    requires
        o matches ImageOrigin::Embedded { data, .. } ==> data@.len() + 4 <= usize::MAX / 2,
    ensures
        r.0@ == image_fields_spec(o@).0,
        match (r.1, image_fields_spec(o@).1) {
            (Some(m), Some(sm)) => m@ == sm,
            (None, None) => true,
            _ => false,
        },
        readable_image(o@) ==> forall|root: GltfRootView, bufs: Seq<Seq<u8>>, bv: Option<usize>|
            #[trigger] image_origin_spec(root, bufs, Some(r.0@), bv, image_fields_spec(o@).1) == Ok::<
                ImageOriginView,
                ImageError,
            >(o@),
{
    match o {
        ImageOrigin::Embedded { mime, data } => {
            let mut uri = vstd::slice::slice_to_vec("data:".as_bytes());
            push_bytes(&mut uri, mime.as_slice());
            push_bytes(&mut uri, ";base64,".as_bytes());
            let enc = encode_base64(data.as_slice());
            push_bytes(&mut uri, enc.as_slice());
            proof {
                crate::gltf::lemma_base64_encode_shape(data@);
                if readable_image(o@) {
                    assert forall|root: GltfRootView, bufs: Seq<Seq<u8>>, bv: Option<usize>|
                        #[trigger] image_origin_spec(root, bufs, Some(uri@), bv, image_fields_spec(o@).1) == Ok::<
                            ImageOriginView,
                            ImageError,
                        >(o@) by {
                        lemma_image_round_trip(root, bufs, o@, bv);
                    }
                }
            }
            (uri, Some(mime.clone()))
        },
        ImageOrigin::Uri(u) => {
            proof {
                if readable_image(o@) {
                    assert forall|root: GltfRootView, bufs: Seq<Seq<u8>>, bv: Option<usize>|
                        #[trigger] image_origin_spec(root, bufs, Some(u@), bv, image_fields_spec(o@).1) == Ok::<
                            ImageOriginView,
                            ImageError,
                        >(o@) by {
                        lemma_image_round_trip(root, bufs, o@, bv);
                    }
                }
            }
            (u.clone(), None)
        },
    }
}

/// An image a reader gets back unchanged: an embedded one whose media type
/// has no `,` or `;`, or a file whose URI does not start with `data:`.
pub open spec fn readable_image(o: ImageOriginView) -> bool {
    match o {
        ImageOriginView::Embedded { mime, .. } => plain_media_type(mime),
        ImageOriginView::Uri(u) => !begins_with(u, "data:".spec_bytes()),
    }
}

/// A media type that a `data:` URI carries unchanged: no `,` and no `;`.
pub open spec fn plain_media_type(m: Seq<u8>) -> bool {
    forall|k: int| 0 <= k < m.len() ==> #[trigger] m[k] != 44u8 && m[k] != 59u8
}

/// An image written by a writer is read back as it was: an embedded one
/// (whose media type has no `,` or `;`) as its media type and bytes, a
/// file (whose URI does not start with `data:`) as its URI.
pub proof fn lemma_image_round_trip(root: GltfRootView, bufs: Seq<Seq<u8>>, o: ImageOriginView, bv: Option<usize>)
    requires
        o matches ImageOriginView::Embedded { mime, data } ==> plain_media_type(mime) && (forall|k: int|
            0 <= k < base64_standard_encode(data).len() ==> is_base64_byte(#[trigger] base64_standard_encode(data)[k]))
            && base64_standard_decode(base64_standard_encode(data)) == Some(data),
        o matches ImageOriginView::Uri(u) ==> !begins_with(u, "data:".spec_bytes()),
    ensures
        image_origin_spec(root, bufs, Some(image_fields_spec(o).0), bv, image_fields_spec(o).1) == Ok::<
            ImageOriginView,
            ImageError,
        >(o),
{
    match o {
        ImageOriginView::Uri(u) => {},
        ImageOriginView::Embedded { mime, data } => {
            reveal_strlit("data:");
            reveal_strlit(";base64,");
            reveal_strlit(",");
            reveal_strlit(";");
            vstd::string::is_ascii_spec_bytes("data:");
            vstd::string::is_ascii_spec_bytes(";base64,");
            vstd::string::is_ascii_spec_bytes(",");
            vstd::string::is_ascii_spec_bytes(";");
            let d = "data:".spec_bytes();
            let tag = ";base64,".spec_bytes();
            let e = base64_standard_encode(data);
            let uri = d + mime + tag + e;
            assert(d.len() == 5);
            assert(tag.len() == 8);
            assert(uri.take(5) =~= d);
            let rest = uri.skip(5);
            assert(rest =~= mime + tag + e);
            let m = mime.len() as int;
            assert(",".spec_bytes() =~= seq![44u8]);
            assert(";".spec_bytes() =~= seq![59u8]);
            assert forall|j: int| 0 <= j < m + 7 implies rest[j] != 44u8 by {
                if j < m {
                    assert(rest[j] == mime[j]);
                } else {
                    assert(rest[j] == tag[j - m]);
                }
            }
            assert(rest[m + 7] == tag[7]);
            lemma_find_byte_at(rest, 44u8, 0, m + 7);
            let header = rest.take(m + 7);
            assert(rest.skip(m + 8) =~= e);
            assert forall|j: int| 0 <= j < m implies header[j] != 59u8 by {
                assert(header[j] == mime[j]);
            }
            assert(header[m] == tag[0]);
            lemma_find_byte_at(header, 59u8, 0, m);
            assert(header.take(m) =~= mime);
            assert(media_type(header) == mime);
        },
    }
}

/// Decimal digits of `n`, most significant first, with no leading zero.
pub open spec fn decimal(n: nat) -> Seq<u8>
    decreases n,
{
    if n < 10 {
        seq![(48 + n) as u8]
    } else {
        decimal(n / 10).push((48 + n % 10) as u8)
    }
}

/// The decimal text of `n`.
pub fn decimal_bytes(n: usize) -> (r: Vec<u8>)
    ensures
        r@ == decimal(n as nat),
    decreases n,
{
    if n < 10 {
        vec![(48 + n) as u8]
    } else {
        let mut v = decimal_bytes(n / 10);
        v.push((48 + n % 10) as u8);
        v
    }
}

/// The name a reader gives a node: its own, else `Node_` and its index.
pub open spec fn node_name_spec(name: Option<Seq<u8>>, gi: nat) -> Seq<u8> {
    match name {
        Some(n) => n,
        None => "Node_".spec_bytes() + decimal(gi),
    }
}

pub fn node_name(name: Option<&[u8]>, gi: usize) -> (r: Vec<u8>)
    ensures
        r@ == node_name_spec(
            match name {
                Some(n) => Some(n@),
                None => None,
            },
            gi as nat,
        ),
{
    match name {
        Some(n) => vstd::slice::slice_to_vec(n),
        None => {
            let mut r = vstd::slice::slice_to_vec("Node_".as_bytes());
            let d = decimal_bytes(gi);
            push_bytes(&mut r, d.as_slice());
            r
        },
    }
}

/// The indices of a primitive in the mesh's shared vertex list: each moved
/// by the number of vertices before the primitive's own.
pub fn offset_indices(indices: &[u32], vert_offset: usize) -> (r: Vec<u32>)
    requires
        forall|i: int| 0 <= i < indices@.len() ==> #[trigger] indices@[i] + (vert_offset as u32) <= u32::MAX,
    ensures
        r@.len() == indices@.len(),
        forall|i: int| 0 <= i < indices@.len() ==> #[trigger] r@[i] == indices@[i] + (vert_offset as u32),
{
    let off = vert_offset as u32;
    let mut r: Vec<u32> = Vec::new();
    let mut i: usize = 0;
    while i < indices.len()
        invariant
            off == vert_offset as u32,
            i <= indices@.len(),
            r@.len() == i,
            forall|k: int| 0 <= k < indices@.len() ==> #[trigger] indices@[k] + off <= u32::MAX,
            forall|k: int| 0 <= k < i ==> #[trigger] r@[k] == indices@[k] + off,
        decreases indices@.len() - i,
    {
        r.push(indices[i] + off);
        i = i + 1;
    }
    r
}

/// The indices of a primitive without an index accessor: its vertices in
/// order, counted as `u32`.
pub fn sequential_indices(vertex_count: usize) -> (r: Vec<u32>)
    ensures
        r@.len() == vertex_count as u32,
        forall|i: int| 0 <= i < r@.len() ==> #[trigger] r@[i] == i,
{
    let n = vertex_count as u32;
    let mut r: Vec<u32> = Vec::new();
    let mut i: u32 = 0;
    while i < n
        invariant
            i <= n,
            n == vertex_count as u32,
            r@.len() == i,
            forall|k: int| 0 <= k < i ==> #[trigger] r@[k] == k,
        decreases n - i,
    {
        r.push(i);
        i = i + 1;
    }
    r
}

} // verus!
